//! How the local and remote heads of one branch become a single head.

use vstd::prelude::*;

use crate::engine::status::Reconciled;
use crate::object::{id_before, ObjectId};
use crate::order::{holds_key, rising, Keyed, SortedSet};

verus! {

// ----------------------------------------------------------------------------
// Which heads count
// ----------------------------------------------------------------------------

/// What was found of two heads: whether the first is contained in the history of the other.
#[derive(Debug, Clone, Copy)]
pub struct Answer {
    pub candidate: ObjectId,
    pub other: ObjectId,
    pub contained: bool,
}

/// The search for the heads that are contained in no other. It asks of each head whether it is
/// contained in the others, one by one, until one contains it.
#[derive(Debug)]
pub struct AncestryScan {
    pub heads: Vec<ObjectId>,
    pub answers: Vec<Answer>,
    pub candidate: usize,
    pub other: usize,
}

/// Whether this answer was given.
pub open spec fn answered(
    answers: Seq<Answer>,
    candidate: ObjectId,
    other: ObjectId,
    contained: bool,
) -> bool {
    exists|i: int|
        0 <= i < answers.len() && (#[trigger] answers[i]).candidate == candidate && answers[i].other
            == other && answers[i].contained == contained
}

/// Whether a head was found to be contained in another.
pub open spec fn found_contained(answers: Seq<Answer>, head: ObjectId) -> bool {
    exists|i: int|
        0 <= i < answers.len() && (#[trigger] answers[i]).candidate == head && answers[i].contained
}

/// Whether a head was found not to be contained in any of the first `n` heads.
pub open spec fn found_apart(
    answers: Seq<Answer>,
    heads: Seq<ObjectId>,
    head: ObjectId,
    n: int,
) -> bool {
    forall|k: int|
        0 <= k < n && (#[trigger] heads[k]) != head ==> answered(answers, head, heads[k], false)
}

/// The question that follows: the next head that could contain the candidate, or the first for
/// the next candidate.
pub open spec fn next_question(len: int, candidate: int, other: int, contained: bool) -> (int, int) {
    let next = if other + 1 == candidate {
        other + 2
    } else {
        other + 1
    };
    if contained || next >= len {
        (candidate + 1, 0)
    } else {
        (candidate, next)
    }
}

impl AncestryScan {
    /// The heads are distinct and in order, every answer is about two of them, and every head
    /// ahead of the candidate is settled: contained in another, or apart from all others.
    pub open spec fn wf(&self) -> bool {
        let heads = self.heads@;
        let answers = self.answers@;
        &&& rising(heads)
        &&& self.candidate <= heads.len()
        &&& self.candidate < heads.len() ==> self.other < heads.len() && self.other
            != self.candidate
        &&& forall|i: int|
            0 <= i < answers.len() ==> holds_key(heads, (#[trigger] answers[i]).candidate)
                && holds_key(heads, answers[i].other) && answers[i].candidate != answers[i].other
        &&& forall|c: int|
            0 <= c < self.candidate ==> found_contained(answers, #[trigger] heads[c])
                || found_apart(answers, heads, heads[c], heads.len() as int)
        &&& self.candidate < heads.len() ==> found_apart(
            answers,
            heads,
            heads[self.candidate as int],
            self.other as int,
        )
        &&& forall|i: int, c: int|
            0 <= i < answers.len() && (#[trigger] answers[i]).contained && self.candidate <= c
                < heads.len() ==> answers[i].candidate != #[trigger] heads[c]
    }

    /// Whether every head is settled.
    pub open spec fn is_done(&self) -> bool {
        self.candidate == self.heads@.len()
    }

    /// The number of questions that are left at most.
    pub open spec fn left(&self) -> nat {
        if self.candidate < self.heads@.len() {
            ((self.heads@.len() - self.candidate) * self.heads@.len() - self.other) as nat
        } else {
            0
        }
    }

    /// Starts the search among these heads.
    pub fn new(heads: SortedSet<ObjectId>) -> (r: AncestryScan)
        requires
            heads.wf(),
        ensures
            r.wf(),
            r.heads@ == heads.items@,
            r.answers@.len() == 0,
            r.is_done() <==> heads.items@.len() < 2,
            heads.items@.len() >= 2 ==> r.candidate == 0 && r.other == 1,
    {
        let len: usize = heads.items.len();
        let candidate: usize = if len == 1 { 1 } else { 0 };
        let other: usize = if len >= 2 { 1 } else { 0 };
        let r = AncestryScan { heads: heads.items, answers: Vec::new(), candidate, other };
        proof {
            if len == 1 {
                assert(found_apart(r.answers@, r.heads@, r.heads@[0], 1));
            }
        }
        r
    }

    /// The question that is open: whether the first head is contained in the history of the
    /// second.
    pub fn question(&self) -> (r: Option<(ObjectId, ObjectId)>)
        requires
            self.wf(),
        ensures
            r is None <==> self.is_done(),
            r matches Some(q) ==> q.0 == self.heads@[self.candidate as int] && q.1
                == self.heads@[self.other as int] && q.0 != q.1,
    {
        if self.candidate == self.heads.len() {
            None
        } else {
            proof {
                self.lemma_heads_differ(self.candidate as int, self.other as int);
            }
            Some((self.heads[self.candidate], self.heads[self.other]))
        }
    }

    proof fn lemma_heads_differ(&self, a: int, b: int)
        requires
            rising(self.heads@),
            0 <= a < self.heads@.len(),
            0 <= b < self.heads@.len(),
            a != b,
        ensures
            self.heads@[a] != self.heads@[b],
    {
        let lo = if a < b {
            a
        } else {
            b
        };
        let hi = if a < b {
            b
        } else {
            a
        };
        assert(ObjectId::precedes(self.heads@[lo].key(), self.heads@[hi].key()));
    }

    /// Answers the question that is open.
    pub fn answer(&mut self, contained: bool)
        requires
            old(self).wf(),
            !old(self).is_done(),
        ensures
            final(self).wf(),
            final(self).heads@ == old(self).heads@,
            final(self).answers@ == old(self).answers@.push(
                Answer {
                    candidate: old(self).heads@[old(self).candidate as int],
                    other: old(self).heads@[old(self).other as int],
                    contained,
                },
            ),
            (final(self).candidate as int, final(self).other as int) == next_question(
                old(self).heads@.len() as int,
                old(self).candidate as int,
                old(self).other as int,
                contained,
            ),
            final(self).left() < old(self).left(),
    {
        let len: usize = self.heads.len();
        let ghost heads = self.heads@;
        let ghost before = self.answers@;
        let ghost c = self.candidate as int;
        let ghost o = self.other as int;
        let given = Answer {
            candidate: self.heads[self.candidate],
            other: self.heads[self.other],
            contained,
        };
        proof {
            self.lemma_heads_differ(c, o);
            assert(heads[c].key() == heads[c]);
            assert(heads[o].key() == heads[o]);
        }
        self.answers.push(given);
        let mut next: usize = self.other + 1;
        if next == self.candidate {
            next = next + 1;
        }
        if contained || next >= len {
            self.candidate = self.candidate + 1;
            self.other = 0;
        } else {
            self.other = next;
        }
        proof {
            assert((len - c) * len == (len - c - 1) * len + len) by (nonlinear_arith);
            let after = self.answers@;
            assert(after[before.len() as int] == given);
            assert forall|a: ObjectId, b: ObjectId, k: bool| #[trigger]
                answered(before, a, b, k) implies answered(after, a, b, k) by {
                let i = choose|i: int|
                    0 <= i < before.len() && (#[trigger] before[i]).candidate == a
                        && before[i].other == b && before[i].contained == k;
                assert(after[i] == before[i]);
            }
            assert forall|h: ObjectId| #[trigger]
                found_contained(before, h) implies found_contained(after, h) by {
                let i = choose|i: int|
                    0 <= i < before.len() && (#[trigger] before[i]).candidate == h
                        && before[i].contained;
                assert(after[i] == before[i]);
            }
            assert(answered(after, heads[c], heads[o], contained));
            if contained {
                assert(found_contained(after, heads[c]));
            } else {
                assert(found_apart(after, heads, heads[c], next as int)) by {
                    assert forall|k: int| 0 <= k < next && (#[trigger] heads[k]) != heads[c]
                        implies answered(after, heads[c], heads[k], false) by {
                        if k < o {
                            assert(answered(before, heads[c], heads[k], false));
                        }
                    }
                }
            }
            assert forall|i: int, d: int|
                0 <= i < after.len() && (#[trigger] after[i]).contained && self.candidate <= d
                    < heads.len() implies after[i].candidate != #[trigger] heads[d] by {
                if i == before.len() {
                    self.lemma_heads_differ(c, d);
                } else {
                    assert(after[i] == before[i]);
                }
            }
            assert forall|d: int| 0 <= d < self.candidate implies found_contained(
                after,
                #[trigger] heads[d],
            ) || found_apart(after, heads, heads[d], heads.len() as int) by {
                if d < c {
                    if !found_contained(before, heads[d]) {
                        assert(found_apart(before, heads, heads[d], heads.len() as int));
                        assert forall|k: int|
                            0 <= k < heads.len() && (#[trigger] heads[k])
                                != heads[d] implies answered(after, heads[d], heads[k], false) by {
                            assert(answered(before, heads[d], heads[k], false));
                        }
                    }
                }
            }
        }
    }
}

/// The heads that no answer found to be contained in another, in order.
pub open spec fn frontier_of(heads: Seq<ObjectId>, answers: Seq<Answer>) -> Seq<ObjectId> {
    heads.filter(|head: ObjectId| !found_contained(answers, head))
}

fn is_found_contained(answers: &Vec<Answer>, head: ObjectId) -> (r: bool)
    ensures
        r == found_contained(answers@, head),
{
    for i in 0..answers.len()
        invariant
            forall|k: int|
                0 <= k < i ==> (#[trigger] answers@[k]).candidate != head || !answers@[k].contained,
    {
        if answers[i].contained && answers[i].candidate == head {
            return true;
        }
    }
    false
}

impl AncestryScan {
    /// The heads that are contained in no other.
    pub fn frontier(&self) -> (r: Vec<ObjectId>)
        requires
            self.wf(),
            self.is_done(),
        ensures
            r@ == frontier_of(self.heads@, self.answers@),
    {
        let mut out: Vec<ObjectId> = Vec::new();
        let ghost keep = |head: ObjectId| !found_contained(self.answers@, head);
        proof {
            reveal(Seq::filter);
            assert(self.heads@.take(0) =~= Seq::<ObjectId>::empty());
        }
        for i in 0..self.heads.len()
            invariant
                keep == (|head: ObjectId| !found_contained(self.answers@, head)),
                out@ == self.heads@.take(i as int).filter(keep),
        {
            let head = self.heads[i];
            proof {
                crate::text::lemma_filter_push(self.heads@.take(i as int), head, keep);
                assert(self.heads@.take(i + 1) =~= self.heads@.take(i as int).push(head));
            }
            if !is_found_contained(&self.answers, head) {
                out.push(head);
            }
        }
        assert(self.heads@.take(self.heads@.len() as int) =~= self.heads@);
        out
    }
}

/// The order in which heads are integrated: the local head first, where it counts, so that
/// merges read as local against remote.
pub open spec fn integration_order(
    local: Option<ObjectId>,
    frontier: Seq<ObjectId>,
) -> Seq<ObjectId> {
    match local {
        Some(local) => if frontier.contains(local) {
            seq![local] + frontier.filter(|head: ObjectId| head != local)
        } else {
            frontier
        },
        None => frontier,
    }
}

/// Puts the heads in the order in which they are integrated.
pub fn order_heads(local: Option<ObjectId>, frontier: Vec<ObjectId>) -> (r: Vec<ObjectId>)
    ensures
        r@ == integration_order(local, frontier@),
{
    let first = match local {
        Some(first) => first,
        None => {
            return frontier;
        },
    };
    let mut found = false;
    let mut out: Vec<ObjectId> = Vec::new();
    out.push(first);
    let ghost keep = |head: ObjectId| head != first;
    proof {
        reveal(Seq::filter);
        assert(frontier@.take(0) =~= Seq::<ObjectId>::empty());
        assert(out@ =~= seq![first] + frontier@.take(0).filter(keep));
    }
    for i in 0..frontier.len()
        invariant
            keep == (|head: ObjectId| head != first),
            found == frontier@.take(i as int).contains(first),
            out@ == seq![first] + frontier@.take(i as int).filter(keep),
    {
        let head = frontier[i];
        proof {
            crate::text::lemma_filter_push(frontier@.take(i as int), head, keep);
            assert(frontier@.take(i + 1) =~= frontier@.take(i as int).push(head));
            if found {
                let k = choose|k: int| 0 <= k < i && frontier@.take(i as int)[k] == first;
                assert(frontier@.take(i + 1)[k] == first);
            }
            if head == first {
                assert(frontier@.take(i + 1)[i as int] == first);
            }
        }
        if head == first {
            found = true;
        } else {
            out.push(head);
        }
        assert(out@ =~= seq![first] + frontier@.take(i + 1).filter(keep));
    }
    assert(frontier@.take(frontier@.len() as int) =~= frontier@);
    if found {
        out
    } else {
        frontier
    }
}

// ----------------------------------------------------------------------------
// The steps of a reconciliation
// ----------------------------------------------------------------------------

/// The reconciliation of one branch.
#[derive(Debug)]
pub struct Reconcile {
    pub dry_run: bool,
    pub local: Option<ObjectId>,
    pub stage: ReconcileStage,
}

/// What a reconciliation waits for.
#[derive(Debug)]
pub enum ReconcileStage {
    /// Whether one head is contained in another.
    Asking(AncestryScan),
    /// The merge of two heads; `rest` follows.
    Merging { ours: ObjectId, theirs: ObjectId, rest: Vec<ObjectId> },
    /// The commit of the merge of two heads; `rest` follows.
    Committing { ours: ObjectId, theirs: ObjectId, rest: Vec<ObjectId> },
    /// That the conflicts of a merge were shown.
    Showing,
    /// Nothing more.
    Done(Reconciled),
}

/// What a reconciliation does next.
#[derive(Debug, Clone, Copy)]
pub enum ReconcileAction {
    /// Find out whether `candidate` is contained in the history of `other`.
    Ask { candidate: ObjectId, other: ObjectId },
    /// Merge two heads.
    Merge { ours: ObjectId, theirs: ObjectId },
    /// Commit the merge with the two heads as its parents, after its conflicts are resolved
    /// where `resolve` holds.
    Commit { ours: ObjectId, theirs: ObjectId, resolve: bool },
    /// Show the conflicts of the merge.
    ShowConflicts,
    /// End with this state.
    Finish(Reconciled),
}

/// What came of the last action.
#[derive(Debug, Clone, Copy)]
pub enum ReconcileEvent {
    Contained(bool),
    Merged { unresolved: bool },
    Committed(ObjectId),
    Shown,
}

/// Whether `stage` is where the integration of `ordered` begins.
pub open spec fn begins_with(stage: ReconcileStage, ordered: Seq<ObjectId>) -> bool {
    if ordered.len() == 0 {
        stage == ReconcileStage::Done(Reconciled::NoHistory)
    } else if ordered.len() == 1 {
        stage == ReconcileStage::Done(Reconciled::Head(ordered[0]))
    } else {
        stage matches ReconcileStage::Merging { ours, theirs, rest } && ours == ordered[0] && theirs
            == ordered[1] && rest@ == ordered.skip(2)
    }
}

/// Whether `heads` are the local and the remote heads, in order and each once.
pub open spec fn are_heads(
    heads: Seq<ObjectId>,
    local: Option<ObjectId>,
    remote: Seq<ObjectId>,
) -> bool {
    rising(heads) && forall|head: ObjectId| #[trigger]
        holds_key(heads, head) <==> local == Some(head) || remote.contains(head)
}

fn begin(ordered: Vec<ObjectId>) -> (r: ReconcileStage)
    ensures
        begins_with(r, ordered@),
{
    if ordered.len() == 0 {
        ReconcileStage::Done(Reconciled::NoHistory)
    } else if ordered.len() == 1 {
        ReconcileStage::Done(Reconciled::Head(ordered[0]))
    } else {
        let mut rest: Vec<ObjectId> = Vec::new();
        let mut i: usize = 2;
        while i < ordered.len()
            invariant
                2 <= i <= ordered@.len(),
                rest@ == ordered@.subrange(2, i as int),
            decreases ordered.len() - i,
        {
            rest.push(ordered[i]);
            assert(ordered@.subrange(2, i + 1) =~= ordered@.subrange(2, i as int).push(
                ordered@[i as int],
            ));
            i = i + 1;
        }
        assert(rest@ =~= ordered@.skip(2));
        ReconcileStage::Merging { ours: ordered[0], theirs: ordered[1], rest }
    }
}

impl Reconcile {
    /// While questions are open, the search for the heads that count is in order.
    pub open spec fn wf(&self) -> bool {
        self.stage matches ReconcileStage::Asking(scan) ==> scan.wf() && !scan.is_done()
    }

    /// Starts the reconciliation of a branch with these heads.
    pub fn start(local: Option<ObjectId>, remote: &Vec<ObjectId>, dry_run: bool) -> (r: Reconcile)
        ensures
            r.wf(),
            r.dry_run == dry_run,
            r.local == local,
            exists|heads: Seq<ObjectId>| #[trigger]
                are_heads(heads, local, remote@) && if heads.len() < 2 {
                    begins_with(r.stage, heads)
                } else {
                    r.stage matches ReconcileStage::Asking(scan) && scan.heads@ == heads
                        && scan.answers@.len() == 0 && scan.candidate == 0 && scan.other == 1
                },
    {
        let mut set: SortedSet<ObjectId> = SortedSet::new();
        if let Some(head) = local {
            let _ = set.insert(head);
        }
        let ghost own = set@;
        for i in 0..remote.len()
            invariant
                set.wf(),
                forall|head: ObjectId| #[trigger]
                    own.contains(head) <==> local == Some(head),
                forall|head: ObjectId| #[trigger]
                    set@.contains(head) <==> own.contains(head) || remote@.take(
                        i as int,
                    ).contains(head),
        {
            let ghost before = set@;
            let _ = set.insert(remote[i]);
            assert forall|head: ObjectId| #[trigger]
                set@.contains(head) <==> own.contains(head) || remote@.take(i + 1).contains(
                    head,
                ) by {
                let less = remote@.take(i as int);
                let more = remote@.take(i + 1);
                assert(set@ == before.insert(remote@[i as int]));
                if less.contains(head) {
                    let k = choose|k: int| 0 <= k < less.len() && less[k] == head;
                    assert(more[k] == head);
                }
                if head == remote@[i as int] {
                    assert(more[i as int] == head);
                }
                if more.contains(head) {
                    let k = choose|k: int| 0 <= k < more.len() && more[k] == head;
                    if k < i {
                        assert(less[k] == head);
                    }
                }
            }
        }
        assert(remote@.take(remote@.len() as int) =~= remote@);
        let ghost heads = set.items@;
        proof {
            assert forall|head: ObjectId| #[trigger]
                holds_key(heads, head) <==> local == Some(head) || remote@.contains(head) by {
                assert(set@.contains(head) == holds_key(heads, head));
            }
            assert(are_heads(heads, local, remote@));
        }
        if set.items.len() < 2 {
            Reconcile { dry_run, local, stage: begin(set.items) }
        } else {
            Reconcile { dry_run, local, stage: ReconcileStage::Asking(AncestryScan::new(set)) }
        }
    }

    /// What is done next.
    pub fn action(&self) -> (r: ReconcileAction)
        requires
            self.wf(),
        ensures
            match self.stage {
                ReconcileStage::Asking(scan) => r == (ReconcileAction::Ask {
                    candidate: scan.heads@[scan.candidate as int],
                    other: scan.heads@[scan.other as int],
                }),
                ReconcileStage::Merging { ours, theirs, rest } => r == (ReconcileAction::Merge {
                    ours,
                    theirs,
                }),
                ReconcileStage::Committing { ours, theirs, rest } => r == (
                ReconcileAction::Commit { ours, theirs, resolve: !self.dry_run }),
                ReconcileStage::Showing => r is ShowConflicts,
                ReconcileStage::Done(state) => r == ReconcileAction::Finish(state),
            },
    {
        match &self.stage {
            ReconcileStage::Asking(scan) => {
                match scan.question() {
                    Some(q) => ReconcileAction::Ask { candidate: q.0, other: q.1 },
                    None => ReconcileAction::ShowConflicts,
                }
            },
            ReconcileStage::Merging { ours, theirs, rest: _ } => ReconcileAction::Merge {
                ours: *ours,
                theirs: *theirs,
            },
            ReconcileStage::Committing { ours, theirs, rest: _ } => ReconcileAction::Commit {
                ours: *ours,
                theirs: *theirs,
                resolve: !self.dry_run,
            },
            ReconcileStage::Showing => ReconcileAction::ShowConflicts,
            ReconcileStage::Done(state) => ReconcileAction::Finish(*state),
        }
    }

    /// Whether `event` can follow the action of this stage.
    pub open spec fn event_fits(&self, event: ReconcileEvent) -> bool {
        match self.stage {
            ReconcileStage::Asking(_) => event is Contained,
            ReconcileStage::Merging { .. } => event is Merged,
            ReconcileStage::Committing { .. } => event is Committed,
            ReconcileStage::Showing => event is Shown,
            ReconcileStage::Done(_) => false,
        }
    }

    /// Goes on after what came of the last action.
    pub fn step(self, event: ReconcileEvent) -> (r: Reconcile)
        requires
            self.wf(),
            self.event_fits(event),
        ensures
            r.wf(),
            r.dry_run == self.dry_run,
            r.local == self.local,
            step_leads_to(self, event, r.stage),
    {
        let dry_run = self.dry_run;
        let local = self.local;
        let stage = match self.stage {
            ReconcileStage::Asking(scan) => {
                let mut scan = scan;
                if let ReconcileEvent::Contained(contained) = event {
                    scan.answer(contained);
                }
                if scan.candidate == scan.heads.len() {
                    begin(order_heads(local, scan.frontier()))
                } else {
                    ReconcileStage::Asking(scan)
                }
            },
            ReconcileStage::Merging { ours, theirs, rest } => {
                let unresolved = match event {
                    ReconcileEvent::Merged { unresolved } => unresolved,
                    _ => true,
                };
                if dry_run && unresolved {
                    ReconcileStage::Showing
                } else {
                    ReconcileStage::Committing { ours, theirs, rest }
                }
            },
            ReconcileStage::Committing { ours, theirs: _, rest } => {
                let commit = match event {
                    ReconcileEvent::Committed(commit) => commit,
                    _ => ours,
                };
                let mut rest = rest;
                if rest.len() == 0 {
                    ReconcileStage::Done(Reconciled::Head(commit))
                } else {
                    let ghost before = rest@;
                    let next = rest.remove(0);
                    assert(rest@ =~= before.skip(1));
                    ReconcileStage::Merging { ours: commit, theirs: next, rest }
                }
            },
            ReconcileStage::Showing => ReconcileStage::Done(Reconciled::Conflict),
            ReconcileStage::Done(state) => ReconcileStage::Done(state),
        };
        Reconcile { dry_run, local, stage }
    }
}

/// Whether a search, with one answer more, leads to `next`.
pub open spec fn scan_leads_to(
    local: Option<ObjectId>,
    scan: AncestryScan,
    contained: bool,
    next: ReconcileStage,
) -> bool {
    let answers = scan.answers@.push(
        Answer {
            candidate: scan.heads@[scan.candidate as int],
            other: scan.heads@[scan.other as int],
            contained,
        },
    );
    let position = next_question(
        scan.heads@.len() as int,
        scan.candidate as int,
        scan.other as int,
        contained,
    );
    if position.0 == scan.heads@.len() {
        begins_with(next, integration_order(local, frontier_of(scan.heads@, answers)))
    } else {
        next matches ReconcileStage::Asking(after) && after.heads@ == scan.heads@
            && after.answers@ == answers && after.candidate == position.0 && after.other
            == position.1 && after.left() < scan.left()
    }
}

/// Whether an event leads a reconciliation to the stage `next`.
pub open spec fn step_leads_to(
    before: Reconcile,
    event: ReconcileEvent,
    next: ReconcileStage,
) -> bool {
    match (before.stage, event) {
        (ReconcileStage::Asking(scan), ReconcileEvent::Contained(contained)) => scan_leads_to(
            before.local,
            scan,
            contained,
            next,
        ),
        (
            ReconcileStage::Merging { ours, theirs, rest },
            ReconcileEvent::Merged { unresolved },
        ) => if before.dry_run && unresolved {
            next is Showing
        } else {
            next == (ReconcileStage::Committing { ours, theirs, rest })
        },
        (
            ReconcileStage::Committing { ours, theirs, rest },
            ReconcileEvent::Committed(commit),
        ) => if rest@.len() == 0 {
            next == ReconcileStage::Done(Reconciled::Head(commit))
        } else {
            next matches ReconcileStage::Merging { ours: left, theirs: right, rest: after }
                && left == commit && right == rest@[0] && after@ == rest@.skip(1)
        },
        (ReconcileStage::Showing, ReconcileEvent::Shown) => next == ReconcileStage::Done(
            Reconciled::Conflict,
        ),
        _ => false,
    }
}

// ----------------------------------------------------------------------------
// Laws
// ----------------------------------------------------------------------------

/// Whether the answers were given by `contained_in`.
pub open spec fn answers_by(
    answers: Seq<Answer>,
    contained_in: spec_fn(ObjectId, ObjectId) -> bool,
) -> bool {
    forall|i: int|
        0 <= i < answers.len() ==> (#[trigger] answers[i]).contained == contained_in(
            answers[i].candidate,
            answers[i].other,
        )
}

/// Whether every head is settled by answers about these heads: contained in another, or apart from
/// all others.
pub open spec fn settled(heads: Seq<ObjectId>, answers: Seq<Answer>) -> bool {
    &&& forall|i: int|
        0 <= i < answers.len() ==> holds_key(heads, (#[trigger] answers[i]).other)
            && answers[i].candidate != answers[i].other
    &&& forall|c: int|
        0 <= c < heads.len() ==> found_contained(answers, #[trigger] heads[c]) || found_apart(
            answers,
            heads,
            heads[c],
            heads.len() as int,
        )
}

proof fn lemma_frontier(
    heads: Seq<ObjectId>,
    answers: Seq<Answer>,
    contained_in: spec_fn(ObjectId, ObjectId) -> bool,
    head: ObjectId,
)
    requires
        settled(heads, answers),
        answers_by(answers, contained_in),
    ensures
        frontier_of(heads, answers).contains(head) <==> holds_key(heads, head) && forall|
            other: ObjectId,
        | #[trigger]
            holds_key(heads, other) && other != head ==> !contained_in(head, other),
{
    let keep = |head: ObjectId| !found_contained(answers, head);
    let kept = heads.filter(keep);
    if kept.contains(head) {
        let k = choose|k: int| 0 <= k < kept.len() && kept[k] == head;
        heads.lemma_filter_pred(keep, k);
        heads.lemma_filter_contains_rev(keep, head);
    }
    if heads.contains(head) && keep(head) {
        let k = choose|k: int| 0 <= k < heads.len() && heads[k] == head;
        heads.lemma_filter_contains(keep, k);
    }
    assert(heads.contains(head) == holds_key(heads, head)) by {
        if heads.contains(head) {
            let k = choose|k: int| 0 <= k < heads.len() && heads[k] == head;
            assert(heads[k].key() == head);
        }
    }
    if holds_key(heads, head) {
        let c = choose|c: int| 0 <= c < heads.len() && #[trigger] heads[c].key() == head;
        assert(heads[c] == head);
        if found_contained(answers, head) {
            let i = choose|i: int|
                0 <= i < answers.len() && (#[trigger] answers[i]).candidate == head
                    && answers[i].contained;
            assert(holds_key(heads, answers[i].other));
        } else {
            assert(found_apart(answers, heads, head, heads.len() as int));
            assert forall|other: ObjectId| #[trigger]
                holds_key(heads, other) && other != head implies !contained_in(head, other) by {
                let k = choose|k: int| 0 <= k < heads.len() && #[trigger] heads[k].key() == other;
                assert(heads[k] != head);
                assert(answered(answers, head, heads[k], false));
            }
        }
    }
}

/// The heads that count are exactly those that no other head contains, although not every two
/// heads are compared.
pub proof fn law_frontier_is_maximal(
    scan: AncestryScan,
    contained_in: spec_fn(ObjectId, ObjectId) -> bool,
    head: ObjectId,
)
    requires
        scan.wf(),
        scan.is_done(),
        answers_by(scan.answers@, contained_in),
    ensures
        frontier_of(scan.heads@, scan.answers@).contains(head) <==> holds_key(scan.heads@, head)
            && forall|other: ObjectId| #[trigger]
            holds_key(scan.heads@, other) && other != head ==> !contained_in(head, other),
{
    lemma_frontier(scan.heads@, scan.answers@, contained_in, head);
}

/// Whether `contained_in` can be the order of histories: nothing is contained in itself, and
/// what is contained in a part is contained in the whole.
pub open spec fn is_history(contained_in: spec_fn(ObjectId, ObjectId) -> bool) -> bool {
    &&& forall|a: ObjectId| !#[trigger] contained_in(a, a)
    &&& forall|a: ObjectId, b: ObjectId, c: ObjectId| #[trigger]
        contained_in(a, b) && #[trigger] contained_in(b, c) ==> contained_in(a, c)
}

/// The positions of the heads that contain `head`.
pub open spec fn above(
    heads: Seq<ObjectId>,
    contained_in: spec_fn(ObjectId, ObjectId) -> bool,
    head: ObjectId,
) -> Set<int> {
    Set::new(|k: int| 0 <= k < heads.len() && contained_in(head, heads[k]))
}

proof fn lemma_above_finite(
    heads: Seq<ObjectId>,
    contained_in: spec_fn(ObjectId, ObjectId) -> bool,
    head: ObjectId,
)
    ensures
        above(heads, contained_in, head).finite(),
{
    let all = vstd::set_lib::set_int_range(0, heads.len() as int);
    vstd::set_lib::lemma_int_range(0, heads.len() as int);
    assert(above(heads, contained_in, head).subset_of(all));
    vstd::set_lib::lemma_len_subset(above(heads, contained_in, head), all);
}

proof fn lemma_no_head_is_lost(
    heads: Seq<ObjectId>,
    answers: Seq<Answer>,
    contained_in: spec_fn(ObjectId, ObjectId) -> bool,
    head: ObjectId,
)
    requires
        settled(heads, answers),
        answers_by(answers, contained_in),
        is_history(contained_in),
        holds_key(heads, head),
    ensures
        exists|top: ObjectId| #[trigger]
            frontier_of(heads, answers).contains(top) && (top == head || contained_in(
                head,
                top,
            )),
    decreases above(heads, contained_in, head).len(),
{
    lemma_frontier(heads, answers, contained_in, head);
    if !frontier_of(heads, answers).contains(head) {
        let other = choose|other: ObjectId| #[trigger]
            holds_key(heads, other) && other != head && contained_in(head, other);
        let k = choose|k: int| 0 <= k < heads.len() && #[trigger] heads[k].key() == other;
        assert(heads[k] == other);
        let mine = above(heads, contained_in, head);
        let theirs = above(heads, contained_in, other);
        lemma_above_finite(heads, contained_in, head);
        lemma_above_finite(heads, contained_in, other);
        assert(mine.contains(k));
        assert(!theirs.contains(k));
        assert(theirs.subset_of(mine.remove(k)));
        vstd::set_lib::lemma_len_subset(theirs, mine.remove(k));
        lemma_no_head_is_lost(heads, answers, contained_in, other);
        let top = choose|top: ObjectId| #[trigger]
            frontier_of(heads, answers).contains(top) && (top == other || contained_in(
                other,
                top,
            ));
        assert(contained_in(head, top));
    }
}

/// Nothing is lost: every head counts itself, or is contained in one that counts.
pub proof fn law_no_head_is_lost(
    scan: AncestryScan,
    contained_in: spec_fn(ObjectId, ObjectId) -> bool,
    head: ObjectId,
)
    requires
        scan.wf(),
        scan.is_done(),
        answers_by(scan.answers@, contained_in),
        is_history(contained_in),
        holds_key(scan.heads@, head),
    ensures
        exists|top: ObjectId| #[trigger]
            frontier_of(scan.heads@, scan.answers@).contains(top) && (top == head || contained_in(
                head,
                top,
            )),
{
    lemma_no_head_is_lost(scan.heads@, scan.answers@, contained_in, head);
}

/// The order of integration keeps the heads that count and no others, and the local head comes
/// first where it is one of them.
pub proof fn law_integration_order(
    local: Option<ObjectId>,
    frontier: Seq<ObjectId>,
    head: ObjectId,
)
    ensures
        integration_order(local, frontier).contains(head) <==> frontier.contains(head),
        local is Some && frontier.contains(local->Some_0) ==> integration_order(local, frontier)[0]
            == local->Some_0,
{
    if local is Some && frontier.contains(local->Some_0) {
        let l = local->Some_0;
        let keep = |head: ObjectId| head != l;
        let rest = frontier.filter(keep);
        let order = integration_order(local, frontier);
        if frontier.contains(head) && head != l {
            let k = choose|k: int| 0 <= k < frontier.len() && frontier[k] == head;
            frontier.lemma_filter_contains(keep, k);
            let m = choose|m: int| 0 <= m < rest.len() && rest[m] == head;
            assert(order[m + 1] == head);
        }
        if head == l {
            assert(order[0] == head);
        }
        if order.contains(head) && head != l {
            let m = choose|m: int| 0 <= m < order.len() && order[m] == head;
            assert(rest[m - 1] == head);
            frontier.lemma_filter_contains_rev(keep, head);
        }
    }
}

/// Whether a head is another, or is contained in it.
pub open spec fn is_within(
    contained_in: spec_fn(ObjectId, ObjectId) -> bool,
    head: ObjectId,
    whole: ObjectId,
) -> bool {
    head == whole || contained_in(head, whole)
}

/// Whether a head is within one of these.
pub open spec fn is_within_one(
    contained_in: spec_fn(ObjectId, ObjectId) -> bool,
    head: ObjectId,
    list: Seq<ObjectId>,
) -> bool {
    exists|k: int| 0 <= k < list.len() && is_within(contained_in, head, #[trigger] list[k])
}

/// Whether a reconciliation that is at this stage has not lost a head: it is one of those that are
/// asked about, by answers that are true, or it is within what is merged or still to be merged,
/// or within the head that came of it all. One that ends with a conflict leaves all heads alone.
pub open spec fn keeps(
    contained_in: spec_fn(ObjectId, ObjectId) -> bool,
    stage: ReconcileStage,
    head: ObjectId,
) -> bool {
    match stage {
        ReconcileStage::Asking(scan) => holds_key(scan.heads@, head) && answers_by(
            scan.answers@,
            contained_in,
        ),
        ReconcileStage::Merging { ours, theirs, rest } => is_within(contained_in, head, ours)
            || is_within(contained_in, head, theirs) || is_within_one(contained_in, head, rest@),
        ReconcileStage::Committing { ours, theirs, rest } => is_within(contained_in, head, ours)
            || is_within(contained_in, head, theirs) || is_within_one(contained_in, head, rest@),
        ReconcileStage::Showing => true,
        ReconcileStage::Done(Reconciled::Head(whole)) => is_within(contained_in, head, whole),
        ReconcileStage::Done(Reconciled::Conflict) => true,
        ReconcileStage::Done(Reconciled::NoHistory) => false,
    }
}

/// Whether an event is what really came of the last action: an answer is that of the histories,
/// and a commit contains the two heads that are its parents.
pub open spec fn is_true_of(
    contained_in: spec_fn(ObjectId, ObjectId) -> bool,
    stage: ReconcileStage,
    event: ReconcileEvent,
) -> bool {
    match (stage, event) {
        (ReconcileStage::Asking(scan), ReconcileEvent::Contained(contained)) => contained
            == contained_in(
            scan.heads@[scan.candidate as int],
            scan.heads@[scan.other as int],
        ),
        (
            ReconcileStage::Committing { ours, theirs, rest },
            ReconcileEvent::Committed(commit),
        ) => contained_in(ours, commit) && contained_in(theirs, commit),
        _ => true,
    }
}

proof fn lemma_settled(scan: AncestryScan, contained: bool, answers: Seq<Answer>)
    requires
        scan.wf(),
        !scan.is_done(),
        answers == scan.answers@.push(
            Answer {
                candidate: scan.heads@[scan.candidate as int],
                other: scan.heads@[scan.other as int],
                contained,
            },
        ),
        next_question(
            scan.heads@.len() as int,
            scan.candidate as int,
            scan.other as int,
            contained,
        ).0 == scan.heads@.len(),
    ensures
        settled(scan.heads@, answers),
{
    let heads = scan.heads@;
    let before = scan.answers@;
    let c = scan.candidate as int;
    let o = scan.other as int;
    assert(answers[before.len() as int].candidate == heads[c]);
    scan.lemma_heads_differ(c, o);
    assert(heads[o].key() == heads[o]);
    assert forall|i: int| 0 <= i < answers.len() implies holds_key(
        heads,
        (#[trigger] answers[i]).other,
    ) && answers[i].candidate != answers[i].other by {
        if i < before.len() {
            assert(answers[i] == before[i]);
        }
    }
    assert forall|a: ObjectId, b: ObjectId, k: bool| #[trigger]
        answered(before, a, b, k) implies answered(answers, a, b, k) by {
        let i = choose|i: int|
            0 <= i < before.len() && (#[trigger] before[i]).candidate == a && before[i].other == b
                && before[i].contained == k;
        assert(answers[i] == before[i]);
    }
    assert(answered(answers, heads[c], heads[o], contained));
    assert forall|d: int| 0 <= d < heads.len() implies found_contained(
        answers,
        #[trigger] heads[d],
    ) || found_apart(answers, heads, heads[d], heads.len() as int) by {
        if d < c && found_contained(before, heads[d]) {
            let i = choose|i: int|
                0 <= i < before.len() && (#[trigger] before[i]).candidate == heads[d]
                    && before[i].contained;
            assert(answers[i] == before[i]);
        } else if d == c && contained {
            assert(found_contained(answers, heads[c]));
        } else {
            assert forall|k: int| 0 <= k < heads.len() && (#[trigger] heads[k])
                != heads[d] implies answered(answers, heads[d], heads[k], false) by {
                if d < c {
                    assert(answered(before, heads[d], heads[k], false));
                } else if k < o {
                    assert(answered(before, heads[c], heads[k], false));
                } else {
                    assert(k == o);
                }
            }
        }
    }
}

proof fn lemma_begins(
    contained_in: spec_fn(ObjectId, ObjectId) -> bool,
    stage: ReconcileStage,
    ordered: Seq<ObjectId>,
    head: ObjectId,
)
    requires
        begins_with(stage, ordered),
        is_within_one(contained_in, head, ordered),
    ensures
        keeps(contained_in, stage, head),
{
    let k = choose|k: int|
        0 <= k < ordered.len() && is_within(contained_in, head, #[trigger] ordered[k]);
    if ordered.len() >= 2 && k >= 2 {
        assert(ordered.skip(2)[k - 2] == ordered[k]);
    }
}

/// A reconciliation starts with every head: the local one and those of the remotes.
pub proof fn law_reconciliation_starts_with_every_head(
    local: Option<ObjectId>,
    remote: Seq<ObjectId>,
    heads: Seq<ObjectId>,
    stage: ReconcileStage,
    contained_in: spec_fn(ObjectId, ObjectId) -> bool,
    head: ObjectId,
)
    requires
        are_heads(heads, local, remote),
        if heads.len() < 2 {
            begins_with(stage, heads)
        } else {
            stage matches ReconcileStage::Asking(scan) && scan.heads@ == heads
                && scan.answers@.len() == 0
        },
        local == Some(head) || remote.contains(head),
    ensures
        keeps(contained_in, stage, head),
{
    assert(holds_key(heads, head));
    if heads.len() < 2 {
        let k = choose|k: int| 0 <= k < heads.len() && #[trigger] heads[k].key() == head;
        assert(is_within(contained_in, head, heads[k]));
        lemma_begins(contained_in, stage, heads, head);
    }
}

/// No step of a reconciliation loses a head: where the answers are those of the histories and each
/// commit contains its parents, a head that is kept before a step is kept after it. So the head
/// that comes of it all contains every head that it started with.
pub proof fn law_no_step_loses_a_head(
    before: Reconcile,
    event: ReconcileEvent,
    next: ReconcileStage,
    contained_in: spec_fn(ObjectId, ObjectId) -> bool,
    head: ObjectId,
)
    requires
        before.wf(),
        step_leads_to(before, event, next),
        is_history(contained_in),
        is_true_of(contained_in, before.stage, event),
        keeps(contained_in, before.stage, head),
    ensures
        keeps(contained_in, next, head),
{
    match (before.stage, event) {
        (ReconcileStage::Asking(scan), ReconcileEvent::Contained(contained)) => {
            let answers = scan.answers@.push(
                Answer {
                    candidate: scan.heads@[scan.candidate as int],
                    other: scan.heads@[scan.other as int],
                    contained,
                },
            );
            assert forall|i: int| 0 <= i < answers.len() implies (#[trigger] answers[i]).contained
                == contained_in(answers[i].candidate, answers[i].other) by {
                if i < scan.answers@.len() {
                    assert(answers[i] == scan.answers@[i]);
                }
            }
            let len = scan.heads@.len() as int;
            let position = next_question(len, scan.candidate as int, scan.other as int, contained);
            if position.0 == len {
                lemma_settled(scan, contained, answers);
                lemma_no_head_is_lost(scan.heads@, answers, contained_in, head);
                let frontier = frontier_of(scan.heads@, answers);
                let ordered = integration_order(before.local, frontier);
                let top = choose|top: ObjectId| #[trigger]
                    frontier.contains(top) && (top == head || contained_in(head, top));
                law_integration_order(before.local, frontier, top);
                let k = choose|k: int| 0 <= k < ordered.len() && ordered[k] == top;
                assert(is_within(contained_in, head, ordered[k]));
                lemma_begins(contained_in, next, ordered, head);
            }
        },
        (
            ReconcileStage::Committing { ours, theirs, rest },
            ReconcileEvent::Committed(commit),
        ) => {
            if is_within(contained_in, head, ours) || is_within(contained_in, head, theirs) {
                assert(contained_in(head, commit));
            } else {
                let k = choose|k: int|
                    0 <= k < rest@.len() && is_within(contained_in, head, #[trigger] rest@[k]);
                if k > 0 {
                    assert(rest@.skip(1)[k - 1] == rest@[k]);
                }
            }
        },
        _ => {},
    }
}

/// Whether a reconciliation goes through these states by these events, each of which is what really
/// came of the action before it.
pub open spec fn is_run(
    contained_in: spec_fn(ObjectId, ObjectId) -> bool,
    states: Seq<Reconcile>,
    events: Seq<ReconcileEvent>,
) -> bool {
    &&& states.len() == events.len() + 1
    &&& forall|i: int| 0 <= i < states.len() ==> (#[trigger] states[i]).wf()
    &&& forall|i: int|
        0 <= i < events.len() ==> step_leads_to(
            states[i],
            #[trigger] events[i],
            states[i + 1].stage,
        ) && is_true_of(contained_in, states[i].stage, events[i])
}

proof fn lemma_run_keeps(
    contained_in: spec_fn(ObjectId, ObjectId) -> bool,
    states: Seq<Reconcile>,
    events: Seq<ReconcileEvent>,
    head: ObjectId,
    n: int,
)
    requires
        is_run(contained_in, states, events),
        is_history(contained_in),
        keeps(contained_in, states[0].stage, head),
        0 <= n < states.len(),
    ensures
        keeps(contained_in, states[n].stage, head),
    decreases n,
{
    if n > 0 {
        lemma_run_keeps(contained_in, states, events, head, n - 1);
        assert(states[n - 1].wf());
        assert(step_leads_to(states[n - 1], events[n - 1], states[n - 1 + 1].stage));
        law_no_step_loses_a_head(
            states[n - 1],
            events[n - 1],
            states[n].stage,
            contained_in,
            head,
        );
    }
}

/// The head that comes of a reconciliation contains every head that it started with, or is it.
pub proof fn law_reconciled_head_contains_every_head(
    contained_in: spec_fn(ObjectId, ObjectId) -> bool,
    states: Seq<Reconcile>,
    events: Seq<ReconcileEvent>,
    head: ObjectId,
    whole: ObjectId,
)
    requires
        is_run(contained_in, states, events),
        is_history(contained_in),
        keeps(contained_in, states[0].stage, head),
        states.last().stage == ReconcileStage::Done(Reconciled::Head(whole)),
    ensures
        is_within(contained_in, head, whole),
{
    lemma_run_keeps(contained_in, states, events, head, states.len() - 1);
}

/// Where no remote has a head, the local head stands as it is.
pub proof fn law_local_head_stands_alone(
    local: Option<ObjectId>,
    heads: Seq<ObjectId>,
    stage: ReconcileStage,
)
    requires
        are_heads(heads, local, Seq::empty()),
        if heads.len() < 2 {
            begins_with(stage, heads)
        } else {
            stage is Asking
        },
    ensures
        stage == ReconcileStage::Done(
            match local {
                Some(head) => Reconciled::Head(head),
                None => Reconciled::NoHistory,
            },
        ),
{
    assert forall|i: int| 0 <= i < heads.len() implies local == Some(#[trigger] heads[i]) by {
        assert(heads[i].key() == heads[i]);
        assert(holds_key(heads, heads[i]));
        assert(!Seq::<ObjectId>::empty().contains(heads[i]));
    }
    if heads.len() >= 2 {
        assert(heads[0] == heads[1]);
        assert(ObjectId::precedes(heads[0].key(), heads[1].key()));
        ObjectId::total(heads[0].key(), heads[1].key());
    }
    if let Some(head) = local {
        assert(holds_key(heads, head));
    }
}

/// A dry run resolves no conflict and commits no merge that has one.
pub proof fn law_dry_run_resolves_nothing(
    before: Reconcile,
    event: ReconcileEvent,
    next: ReconcileStage,
)
    requires
        before.dry_run,
        step_leads_to(before, event, next),
        next is Committing,
    ensures
        event == (ReconcileEvent::Merged { unresolved: false }),
{
}

proof fn lemma_frontier_rises(heads: Seq<ObjectId>, keep: spec_fn(ObjectId) -> bool)
    requires
        rising(heads),
    ensures
        rising(heads.filter(keep)),
    decreases heads.len(),
{
    reveal(Seq::filter);
    if heads.len() > 0 {
        let shorter = heads.drop_last();
        assert forall|i: int, j: int| 0 <= i < j < shorter.len() implies ObjectId::precedes(
            #[trigger] shorter[i].key(),
            #[trigger] shorter[j].key(),
        ) by {
            assert(shorter[i] == heads[i] && shorter[j] == heads[j]);
            assert(ObjectId::precedes(heads[i].key(), heads[j].key()));
        }
        lemma_frontier_rises(shorter, keep);
        let list = heads.filter(keep);
        let less = shorter.filter(keep);
        assert forall|i: int, j: int| 0 <= i < j < list.len() implies ObjectId::precedes(
            #[trigger] list[i].key(),
            #[trigger] list[j].key(),
        ) by {
            if j < less.len() {
                assert(less[i] == list[i] && less[j] == list[j]);
                assert(ObjectId::precedes(less[i].key(), less[j].key()));
            } else {
                assert(list[i] == less[i]);
                assert(less.contains(less[i]));
                shorter.lemma_filter_contains_rev(keep, less[i]);
                let k = choose|k: int| 0 <= k < shorter.len() && shorter[k] == less[i];
                assert(list[j] == heads.last());
                assert(ObjectId::precedes(
                    heads[k].key(),
                    heads[heads.len() - 1].key(),
                ));
            }
        }
    }
}

/// The heads that count are integrated in their order, but for the local one, which comes first.
pub proof fn law_heads_are_integrated_in_order(
    local: Option<ObjectId>,
    heads: Seq<ObjectId>,
    answers: Seq<Answer>,
    i: int,
    j: int,
)
    requires
        rising(heads),
        0 <= i < j < integration_order(local, frontier_of(heads, answers)).len(),
    ensures
        ({
            let order = integration_order(local, frontier_of(heads, answers));
            order[i] != order[j] && (local == Some(order[i]) || id_before(order[i], order[j]))
        }),
{
    let frontier = frontier_of(heads, answers);
    lemma_frontier_rises(heads, |head: ObjectId| !found_contained(answers, head));
    let order = integration_order(local, frontier);
    if local is Some && frontier.contains(local->Some_0) {
        let l = local->Some_0;
        let keep = |head: ObjectId| head != l;
        let rest = frontier.filter(keep);
        lemma_frontier_rises(frontier, keep);
        assert(order[j] == rest[j - 1]);
        assert(rest.contains(rest[j - 1]));
        frontier.lemma_filter_contains_rev(keep, rest[j - 1]);
        if i > 0 {
            assert(order[i] == rest[i - 1]);
            assert(ObjectId::precedes(rest[i - 1].key(), rest[j - 1].key()));
        }
    } else {
        assert(ObjectId::precedes(frontier[i].key(), frontier[j].key()));
    }
}

/// Whether one of the heads contains all others.
pub open spec fn is_top(
    contained_in: spec_fn(ObjectId, ObjectId) -> bool,
    heads: Seq<ObjectId>,
    top: ObjectId,
) -> bool {
    holds_key(heads, top) && forall|head: ObjectId| #[trigger]
        holds_key(heads, head) && head != top ==> contained_in(head, top)
}

proof fn lemma_fast_forward(
    before: Reconcile,
    event: ReconcileEvent,
    next: ReconcileStage,
    contained_in: spec_fn(ObjectId, ObjectId) -> bool,
    scan: AncestryScan,
    top: ObjectId,
)
    requires
        before.wf(),
        before.stage == ReconcileStage::Asking(scan),
        step_leads_to(before, event, next),
        is_history(contained_in),
        answers_by(scan.answers@, contained_in),
        is_true_of(contained_in, before.stage, event),
        is_top(contained_in, scan.heads@, top),
    ensures
        match next {
            ReconcileStage::Asking(after) => after.heads@ == scan.heads@ && answers_by(
                after.answers@,
                contained_in,
            ),
            ReconcileStage::Done(state) => state == Reconciled::Head(top),
            _ => false,
        },
{
    let contained = event->Contained_0;
    let heads = scan.heads@;
    let answers = scan.answers@.push(
        Answer {
            candidate: heads[scan.candidate as int],
            other: heads[scan.other as int],
            contained,
        },
    );
    assert forall|i: int| 0 <= i < answers.len() implies (#[trigger] answers[i]).contained
        == contained_in(answers[i].candidate, answers[i].other) by {
        if i < scan.answers@.len() {
            assert(answers[i] == scan.answers@[i]);
        }
    }
    let len = heads.len() as int;
    let position = next_question(len, scan.candidate as int, scan.other as int, contained);
    if position.0 == len {
        lemma_settled(scan, contained, answers);
        let frontier = frontier_of(heads, answers);
        lemma_frontier_rises(heads, |head: ObjectId| !found_contained(answers, head));
        lemma_frontier(heads, answers, contained_in, top);
        assert forall|other: ObjectId| #[trigger]
            holds_key(heads, other) && other != top implies !contained_in(top, other) by {
            assert(contained_in(other, top));
            if contained_in(top, other) {
                assert(contained_in(top, top));
            }
        }
        assert(frontier.contains(top));
        assert forall|k: int| 0 <= k < frontier.len() implies #[trigger] frontier[k] == top by {
            let head = frontier[k];
            lemma_frontier(heads, answers, contained_in, head);
            assert(frontier.contains(head));
            if head != top {
                assert(contained_in(head, top));
            }
        }
        if frontier.len() >= 2 {
            assert(frontier[0] == frontier[1]);
            assert(ObjectId::precedes(frontier[0].key(), frontier[1].key()));
            ObjectId::total(frontier[0].key(), frontier[1].key());
        }
        assert(frontier.len() == 1);
        let order = integration_order(before.local, frontier);
        if before.local is Some && frontier.contains(before.local->Some_0) {
            let l = before.local->Some_0;
            let keep = |head: ObjectId| head != l;
            let rest = frontier.filter(keep);
            if rest.len() > 0 {
                assert(rest.contains(rest[0]));
                frontier.lemma_filter_contains_rev(keep, rest[0]);
            }
            assert(l == top);
        }
        assert(order =~= seq![top]);
    }
}

/// Where one head contains all others, no merge is made of them: it becomes the head as it is.
pub proof fn law_fast_forward_merges_nothing(
    contained_in: spec_fn(ObjectId, ObjectId) -> bool,
    states: Seq<Reconcile>,
    events: Seq<ReconcileEvent>,
    scan: AncestryScan,
    top: ObjectId,
    n: int,
)
    requires
        is_run(contained_in, states, events),
        is_history(contained_in),
        states[0].stage == ReconcileStage::Asking(scan),
        scan.answers@.len() == 0,
        is_top(contained_in, scan.heads@, top),
        0 <= n < states.len(),
    ensures
        match states[n].stage {
            ReconcileStage::Asking(after) => after.heads@ == scan.heads@ && answers_by(
                after.answers@,
                contained_in,
            ),
            ReconcileStage::Done(state) => state == Reconciled::Head(top),
            _ => false,
        },
    decreases n,
{
    if n > 0 {
        law_fast_forward_merges_nothing(contained_in, states, events, scan, top, n - 1);
        assert(states[n - 1].wf());
        assert(step_leads_to(states[n - 1], events[n - 1], states[n - 1 + 1].stage));
        if let ReconcileStage::Asking(at) = states[n - 1].stage {
            lemma_fast_forward(
                states[n - 1],
                events[n - 1],
                states[n].stage,
                contained_in,
                at,
                top,
            );
        }
    }
}

/// A reconciliation ends with a conflict only in a dry run, and only for a merge that has one.
/// Otherwise each merge is committed, with the two heads that were merged as parents, and what was
/// committed is merged with the next head.
pub proof fn law_each_merge_is_committed(
    before: Reconcile,
    event: ReconcileEvent,
    next: ReconcileStage,
)
    requires
        step_leads_to(before, event, next),
    ensures
        next is Showing ==> before.dry_run && event == (ReconcileEvent::Merged {
            unresolved: true,
        }),
        before.stage matches ReconcileStage::Merging { ours, theirs, rest } ==> next is Showing || (
        next is Committing && next->Committing_ours == ours && next->Committing_theirs == theirs
            && next->Committing_rest@ == rest@),
        next == ReconcileStage::Done(Reconciled::Conflict) ==> before.stage is Showing,
        before.stage matches ReconcileStage::Committing { ours, theirs, rest } ==> {
            let commit = event->Committed_0;
            if rest@.len() > 0 {
                next is Merging && next->Merging_ours == commit && seq![next->Merging_theirs]
                    + next->Merging_rest@ == rest@
            } else {
                next == ReconcileStage::Done(Reconciled::Head(commit))
            }
        },
{
    if let ReconcileStage::Committing { ours, theirs, rest } = before.stage {
        if rest@.len() > 0 {
            assert(seq![next->Merging_theirs] + next->Merging_rest@ =~= rest@);
        }
    }
}

/// The first merge has the local head as its own side, where that counts, so that the user sees
/// what is theirs as local.
pub proof fn law_local_side_is_ours(
    before: Reconcile,
    event: ReconcileEvent,
    next: ReconcileStage,
    contained_in: spec_fn(ObjectId, ObjectId) -> bool,
    scan: AncestryScan,
    local: ObjectId,
)
    requires
        before.wf(),
        before.stage == ReconcileStage::Asking(scan),
        before.local == Some(local),
        step_leads_to(before, event, next),
        answers_by(scan.answers@, contained_in),
        is_true_of(contained_in, before.stage, event),
        holds_key(scan.heads@, local),
        forall|other: ObjectId| #[trigger]
            holds_key(scan.heads@, other) && other != local ==> !contained_in(local, other),
    ensures
        match next {
            ReconcileStage::Asking(_) => true,
            ReconcileStage::Merging { ours, theirs, rest } => ours == local && theirs != local
                && !rest@.contains(local),
            ReconcileStage::Done(state) => state == Reconciled::Head(local),
            _ => false,
        },
{
    let contained = event->Contained_0;
    let heads = scan.heads@;
    let answers = scan.answers@.push(
        Answer {
            candidate: heads[scan.candidate as int],
            other: heads[scan.other as int],
            contained,
        },
    );
    assert forall|i: int| 0 <= i < answers.len() implies (#[trigger] answers[i]).contained
        == contained_in(answers[i].candidate, answers[i].other) by {
        if i < scan.answers@.len() {
            assert(answers[i] == scan.answers@[i]);
        }
    }
    let len = heads.len() as int;
    let position = next_question(len, scan.candidate as int, scan.other as int, contained);
    if position.0 == len {
        lemma_settled(scan, contained, answers);
        let frontier = frontier_of(heads, answers);
        lemma_frontier(heads, answers, contained_in, local);
        let order = integration_order(before.local, frontier);
        law_integration_order(before.local, frontier, local);
        if order.len() >= 2 {
            law_heads_are_integrated_in_order(before.local, heads, answers, 0, 1);
            let rest = order.skip(2);
            if rest.contains(local) {
                let k = choose|k: int| 0 <= k < rest.len() && rest[k] == local;
                assert(rest[k] == order[k + 2]);
                law_heads_are_integrated_in_order(before.local, heads, answers, 0, k + 2);
            }
        }
    }
}

/// A dry run commits no resolution, and every other run resolves the conflicts of what it commits.
pub proof fn law_conflicts_are_resolved_before_a_commit(state: Reconcile, action: ReconcileAction)
    requires
        state.wf(),
        call_ensures(Reconcile::action, (&state,), action),
    ensures
        action matches ReconcileAction::Commit { ours, theirs, resolve } ==> resolve
            == !state.dry_run && state.stage is Committing && ours == state.stage->Committing_ours
            && theirs == state.stage->Committing_theirs,
        action matches ReconcileAction::Merge { ours, theirs } ==> state.stage is Merging && ours
            == state.stage->Merging_ours && theirs == state.stage->Merging_theirs,
        action matches ReconcileAction::Ask { candidate, other } ==> state.stage is Asking
            && candidate != other && holds_key(state.stage->Asking_0.heads@, candidate)
            && holds_key(state.stage->Asking_0.heads@, other),
        action is Finish <==> state.stage is Done,
{
    if let ReconcileStage::Asking(scan) = state.stage {
        let c = scan.candidate as int;
        let o = scan.other as int;
        scan.lemma_heads_differ(c, o);
        assert(scan.heads@[c].key() == scan.heads@[c]);
        assert(scan.heads@[o].key() == scan.heads@[o]);
    }
}

/// The laws about steps hold of each step that a reconciliation makes, and of its start: what
/// [`Reconcile::step`] gives is where the event leads, and [`Reconcile::start`] begins with every
/// head.
pub proof fn law_each_step_is_such_a_step(
    before: Reconcile,
    event: ReconcileEvent,
    after: Reconcile,
    local: Option<ObjectId>,
    remote: Vec<ObjectId>,
    dry_run: bool,
    first: Reconcile,
    contained_in: spec_fn(ObjectId, ObjectId) -> bool,
    head: ObjectId,
)
    requires
        before.wf(),
        before.event_fits(event),
        call_ensures(Reconcile::step, (before, event), after),
        call_ensures(Reconcile::start, (local, &remote, dry_run), first),
    ensures
        step_leads_to(before, event, after.stage),
        after.dry_run == before.dry_run,
        after.local == before.local,
        first.dry_run == dry_run,
        first.local == local,
        local == Some(head) || remote@.contains(head) ==> keeps(contained_in, first.stage, head),
        local is None && remote@.len() == 0 ==> first.stage == ReconcileStage::Done(
            Reconciled::NoHistory,
        ),
{
    let heads = choose|heads: Seq<ObjectId>| #[trigger]
        are_heads(heads, local, remote@) && if heads.len() < 2 {
            begins_with(first.stage, heads)
        } else {
            first.stage matches ReconcileStage::Asking(scan) && scan.heads@ == heads
                && scan.answers@.len() == 0 && scan.candidate == 0 && scan.other == 1
        };
    if local == Some(head) || remote@.contains(head) {
        law_reconciliation_starts_with_every_head(
            local,
            remote@,
            heads,
            first.stage,
            contained_in,
            head,
        );
    }
    if local is None && remote@.len() == 0 {
        assert(remote@ =~= Seq::empty());
        law_local_head_stands_alone(local, heads, first.stage);
    }
}

} // verus!
