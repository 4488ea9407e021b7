//! What is captured is written out again.

use vstd::prelude::*;
use vstd::utf8::{
    decode_utf8, encode_utf8, encode_utf8_decode_utf8, encode_utf8_valid_utf8, valid_utf8,
};

use crate::object::{EntryKind, ObjectId};
use crate::rooted_tree::{
    after, bad_name, broken_name, captured, children_of, entry_at, key_in, lemma_failure_stays, object_hash,
    plan_at, plan_list, position, position_from, tree_bytes, tree_captured, tree_plan, ActionModel,
    CaptureFault, Captured, EntryModel, ObjectModel, SubEntry, Walked, WriteOutFault,
};

verus! {

/// The key of what the walk comes upon, where it has one.
pub open spec fn key_of(walked: Walked) -> Option<Seq<u8>> {
    match walked {
        Walked::File { key, .. } => Some(key@),
        Walked::Directory { key, .. } => Some(key@),
        _ => None,
    }
}

/// The name of what the walk comes upon.
pub open spec fn name_of(walked: Walked) -> Seq<char> {
    match walked {
        Walked::File { name, .. } => name@,
        Walked::Directory { name, .. } => name@,
        _ => Seq::empty(),
    }
}

/// The names in a directory.
pub open spec fn names_in(walked: Walked) -> Seq<SubEntry> {
    match walked {
        Walked::Directory { entries, .. } => entries@,
        _ => Seq::empty(),
    }
}

/// Whether a file or directory is at this place of the walk.
pub open spec fn item(walked: Seq<Walked>, i: int) -> bool {
    0 <= i < walked.len() && key_of(walked[i]) is Some
}

/// The object of a file or directory.
pub open spec fn object_of(walked: Seq<Walked>, i: int) -> ObjectModel {
    match walked[i] {
        Walked::File { content, .. } => ObjectModel::Blob(content->Ok_0@),
        _ => ObjectModel::Tree(
            children_of(
                captured(walked.take(i))->Ok_0.entries,
                key_of(walked[i])->0,
                names_in(walked[i]),
            )->Ok_0,
        ),
    }
}

/// The name of an object.
pub open spec fn id_of_object(object: ObjectModel) -> ObjectId {
    match object {
        ObjectModel::Blob(data) => object_hash(false, data)->Ok_0,
        ObjectModel::Tree(entries) => object_hash(true, tree_bytes(entries))->Ok_0,
    }
}

/// The name of the object of a file or directory.
pub open spec fn id_of(walked: Seq<Walked>, i: int) -> ObjectId {
    id_of_object(object_of(walked, i))
}

/// The entry of a file or directory in the directory that it is in.
pub open spec fn entry_of(walked: Seq<Walked>, i: int) -> EntryModel {
    EntryModel {
        kind: match object_of(walked, i) {
            ObjectModel::Blob(_) => EntryKind::Blob,
            ObjectModel::Tree(_) => EntryKind::Tree,
        },
        name: encode_utf8(name_of(walked[i])),
        id: id_of(walked, i),
    }
}

/// Whether the name at `a` in the directory at `j` is that of the file or directory at `c`.
pub open spec fn child(walked: Seq<Walked>, j: int, a: int, c: int) -> bool {
    &&& item(walked, j)
    &&& item(walked, c)
    &&& 0 <= a < names_in(walked[j]).len()
    &&& names_in(walked[j])[a].included
    &&& key_of(walked[c])->0 == key_in(key_of(walked[j])->0, names_in(walked[j])[a].name@)
}

/// Whether going through these names from the root on leads to what is at `i`.
pub open spec fn found(walked: Seq<Walked>, path: Seq<Seq<char>>, i: int) -> bool
    decreases path.len(),
{
    if path.len() == 0 {
        item(walked, i) && key_of(walked[i])->0.len() == 0
    } else {
        path.last() == name_of(walked[i]) && exists|j: int, a: int|
            found(walked, path.drop_last(), j) && #[trigger] child(walked, j, a, i)
    }
}

/// What is to be done to write out what is at `i` to this path.
pub open spec fn action_of(walked: Seq<Walked>, path: Seq<Seq<char>>, i: int) -> ActionModel {
    match object_of(walked, i) {
        ObjectModel::Blob(data) => ActionModel::File(path, data),
        ObjectModel::Tree(_) => ActionModel::Directory(path),
    }
}

/// Whether the walk comes upon each path once.
pub open spec fn is_walk(walked: Seq<Walked>) -> bool {
    forall|i: int, j: int|
        #![trigger item(walked, i), item(walked, j)]
        item(walked, i) && item(walked, j) && key_of(walked[i]) == key_of(walked[j]) ==> i == j
}

/// Whether objects of the walk that have the same name are the same.
pub open spec fn no_clash(walked: Seq<Walked>) -> bool {
    forall|i: int, j: int|
        #![trigger id_of(walked, i), id_of(walked, j)]
        item(walked, i) && item(walked, j) && id_of(walked, i) == id_of(walked, j) ==> object_of(
            walked,
            i,
        ) == object_of(walked, j)
}

// ----------------------------------------------------------------------------
// What is captured
// ----------------------------------------------------------------------------

/// Whether no two objects have the same name.
spec fn apart(objects: Seq<(ObjectId, ObjectModel)>) -> bool {
    forall|i: int, j: int|
        #![trigger objects[i], objects[j]]
        0 <= i < j < objects.len() ==> objects[i].0 != objects[j].0
}

/// Whether these are the entries and the objects of the first `n` steps of the walk.
spec fn holds_first(walked: Seq<Walked>, state: Captured, n: int) -> bool {
    &&& apart(state.objects)
    &&& forall|i: int|
        #![trigger item(walked, i)]
        item(walked, i) && i < n ==> entry_at(state.entries, key_of(walked[i])->0) == Some(
            entry_of(walked, i),
        ) && state.objects.contains((id_of(walked, i), object_of(walked, i)))
    &&& forall|k: Seq<u8>| #[trigger]
        entry_at(state.entries, k) is Some ==> exists|i: int| #[trigger]
            item(walked, i) && i < n && key_of(walked[i])->0 == k
    &&& forall|m: int|
        0 <= m < state.objects.len() ==> exists|i: int|
            #![trigger item(walked, i)]
            item(walked, i) && i < n && #[trigger] state.objects[m] == (
                id_of(walked, i),
                object_of(walked, i),
            )
}

proof fn lemma_position(objects: Seq<(ObjectId, ObjectModel)>, id: ObjectId, i: int)
    requires
        0 <= i <= objects.len(),
    ensures
        i <= position_from(objects, id, i) <= objects.len(),
        position_from(objects, id, i) < objects.len() ==> objects[position_from(
            objects,
            id,
            i,
        )].0 == id,
        position_from(objects, id, i) == objects.len() ==> forall|k: int|
            i <= k < objects.len() ==> #[trigger] objects[k].0 != id,
    decreases objects.len() - i,
{
    if i < objects.len() && objects[i].0 != id {
        lemma_position(objects, id, i + 1);
    }
}

proof fn lemma_prefix(walked: Seq<Walked>, n: int)
    requires
        0 <= n <= walked.len(),
        captured(walked) is Ok,
    ensures
        captured(walked.take(n)) is Ok,
{
    if captured(walked.take(n)) is Err {
        lemma_failure_stays(walked, n);
    }
}

proof fn lemma_holds(walked: Seq<Walked>, n: int)
    requires
        0 <= n <= walked.len(),
        captured(walked) is Ok,
        is_walk(walked),
        no_clash(walked),
    ensures
        captured(walked.take(n)) is Ok,
        holds_first(walked, captured(walked.take(n))->Ok_0, n),
    decreases n, 1int,
{
    lemma_prefix(walked, n);
    let state = captured(walked.take(n))->Ok_0;
    if n == 0 {
        assert(walked.take(0).len() == 0);
    } else {
        lemma_holds_next(walked, n);
    }
}

proof fn lemma_holds_next(walked: Seq<Walked>, n: int)
    requires
        0 < n <= walked.len(),
        captured(walked) is Ok,
        is_walk(walked),
        no_clash(walked),
    ensures
        captured(walked.take(n)) is Ok,
        holds_first(walked, captured(walked.take(n))->Ok_0, n),
    decreases n, 0int,
{
    lemma_prefix(walked, n);
    let state = captured(walked.take(n))->Ok_0;
    lemma_holds(walked, n - 1);
    let last = walked[n - 1];
    let before = captured(walked.take(n - 1))->Ok_0;
    assert(walked.take(n).drop_last() =~= walked.take(n - 1));
    assert(walked.take(n).last() == last);
    assert(after(before, last) == Ok::<Captured, CaptureFault>(state));
    if key_of(last) is Some {
        let key = key_of(last)->0;
        let object = object_of(walked, n - 1);
        let id = id_of(walked, n - 1);
        assert(item(walked, n - 1));
        assert(state.entries == before.entries.push((key, entry_of(walked, n - 1))));
        assert(state.entries.drop_last() =~= before.entries);
        lemma_position(before.objects, id, 0);
        let p = position(before.objects, id);
        if p < before.objects.len() {
            let i = choose|i: int|
                #![trigger item(walked, i)]
                item(walked, i) && i < n - 1 && before.objects[p] == (
                    id_of(walked, i),
                    object_of(walked, i),
                );
            assert(id_of(walked, i) == id_of(walked, n - 1));
            assert(before.objects[p] == (id, object));
            assert(state.objects =~= before.objects);
        } else {
            assert(state.objects == before.objects.push((id, object)));
        }
        assert(apart(state.objects));
        assert forall|i: int|
            #![trigger item(walked, i)]
            item(walked, i) && i < n implies entry_at(state.entries, key_of(walked[i])->0) == Some(
            entry_of(walked, i),
        ) && state.objects.contains((id_of(walked, i), object_of(walked, i))) by {
            if i == n - 1 {
                assert(state.objects[p] == (id, object));
            } else {
                assert(key_of(walked[i]) != key_of(walked[n - 1]));
                let pair = (id_of(walked, i), object_of(walked, i));
                let m = choose|m: int| 0 <= m < before.objects.len() && before.objects[m] == pair;
                assert(state.objects[m] == pair);
            }
        }
        assert forall|k: Seq<u8>| #[trigger] entry_at(state.entries, k) is Some implies exists|
            i: int,
        | #[trigger] item(walked, i) && i < n && key_of(walked[i])->0 == k by {
            if k == key {
                assert(item(walked, n - 1));
            } else {
                assert(entry_at(before.entries, k) is Some);
            }
        }
        assert forall|m: int| 0 <= m < state.objects.len() implies exists|i: int|
            #![trigger item(walked, i)]
            item(walked, i) && i < n && #[trigger] state.objects[m] == (
                id_of(walked, i),
                object_of(walked, i),
            ) by {
            if m < before.objects.len() {
                assert(state.objects[m] == before.objects[m]);
            } else {
                assert(item(walked, n - 1));
            }
        }
    } else {
        assert(state == before);
        assert(!item(walked, n - 1));
        assert forall|m: int| 0 <= m < state.objects.len() implies exists|i: int|
            #![trigger item(walked, i)]
            item(walked, i) && i < n && #[trigger] state.objects[m] == (
                id_of(walked, i),
                object_of(walked, i),
            ) by {
            assert(before.objects[m] == state.objects[m]);
        }
        assert forall|k: Seq<u8>| #[trigger] entry_at(state.entries, k) is Some implies exists|
            i: int,
        | #[trigger] item(walked, i) && i < n && key_of(walked[i])->0 == k by {
            assert(entry_at(before.entries, k) is Some);
        }
    }
}

// ----------------------------------------------------------------------------
// What is in a directory
// ----------------------------------------------------------------------------

/// Where the names are that are to be captured.
spec fn included_at(names: Seq<SubEntry>) -> Seq<int>
    decreases names.len(),
{
    if names.len() == 0 {
        Seq::empty()
    } else if names.last().included {
        included_at(names.drop_last()).push(names.len() - 1)
    } else {
        included_at(names.drop_last())
    }
}

proof fn lemma_included(names: Seq<SubEntry>)
    ensures
        forall|m: int|
            0 <= m < included_at(names).len() ==> 0 <= #[trigger] included_at(names)[m]
                < names.len() && names[included_at(names)[m]].included,
        forall|m: int, k: int|
            #![trigger included_at(names)[m], included_at(names)[k]]
            0 <= m < k < included_at(names).len() ==> included_at(names)[m] < included_at(
                names,
            )[k],
        forall|a: int|
            0 <= a < names.len() && #[trigger] names[a].included ==> included_at(names).contains(a),
    decreases names.len(),
{
    if names.len() > 0 {
        let shorter = names.drop_last();
        lemma_included(shorter);
        let list = included_at(names);
        assert forall|a: int| 0 <= a < names.len() && #[trigger] names[a].included implies list.contains(
            a,
        ) by {
            if a == names.len() - 1 {
                assert(list[list.len() - 1] == a);
            } else {
                assert(shorter[a].included);
                let m = choose|m: int|
                    0 <= m < included_at(shorter).len() && included_at(shorter)[m] == a;
                assert(list[m] == a);
            }
        }
        assert forall|m: int| 0 <= m < list.len() implies 0 <= #[trigger] list[m] < names.len()
            && names[list[m]].included by {
            if m < included_at(shorter).len() {
                assert(list[m] == included_at(shorter)[m]);
                assert(shorter[list[m]].included);
            }
        }
    }
}

proof fn lemma_children(entries: Seq<(Seq<u8>, EntryModel)>, key: Seq<u8>, names: Seq<SubEntry>)
    requires
        children_of(entries, key, names) is Ok,
    ensures
        children_of(entries, key, names)->Ok_0.len() == included_at(names).len(),
        forall|m: int|
            #![trigger children_of(entries, key, names)->Ok_0[m]]
            #![trigger included_at(names)[m]]
            0 <= m < included_at(names).len() ==> entry_at(
                entries,
                key_in(key, names[included_at(names)[m]].name@),
            ) == Some(children_of(entries, key, names)->Ok_0[m]),
    decreases names.len(),
{
    if names.len() > 0 {
        let shorter = names.drop_last();
        lemma_children(entries, key, shorter);
        lemma_included(names);
        lemma_included(shorter);
        let list = children_of(entries, key, names)->Ok_0;
        assert forall|m: int| 0 <= m < included_at(names).len() implies entry_at(
            entries,
            key_in(key, names[#[trigger] included_at(names)[m]].name@),
        ) == Some(list[m]) by {
            if m < included_at(shorter).len() {
                assert(included_at(names)[m] == included_at(shorter)[m]);
                assert(list[m] == children_of(entries, key, shorter)->Ok_0[m]);
                assert(shorter[included_at(shorter)[m]] == names[included_at(names)[m]]);
            }
        }
    }
}

/// What is called by the name at `a` in the directory at `j`.
spec fn kid(walked: Seq<Walked>, j: int, a: int) -> int {
    choose|c: int| child(walked, j, a, c)
}

/// What is in the directory at `j`, in the order of its names.
spec fn kids(walked: Seq<Walked>, j: int) -> Seq<int> {
    Seq::new(
        included_at(names_in(walked[j])).len(),
        |m: int| kid(walked, j, included_at(names_in(walked[j]))[m]),
    )
}

proof fn lemma_directory(walked: Seq<Walked>, j: int)
    requires
        captured(walked) is Ok,
        is_walk(walked),
        no_clash(walked),
        item(walked, j),
        walked[j] is Directory,
    ensures
        object_of(walked, j) is Tree,
        object_of(walked, j)->Tree_0.len() == kids(walked, j).len(),
        forall|m: int|
            #![trigger kids(walked, j)[m]]
            0 <= m < kids(walked, j).len() ==> child(
                walked,
                j,
                included_at(names_in(walked[j]))[m],
                kids(walked, j)[m],
            ) && kids(walked, j)[m] < j && object_of(walked, j)->Tree_0[m] == entry_of(
                walked,
                kids(walked, j)[m],
            ),
        forall|a: int, c: int| #[trigger]
            child(walked, j, a, c) ==> kids(walked, j).contains(c),
{
    lemma_holds(walked, j);
    lemma_prefix(walked, j + 1);
    assert(walked.take(j + 1).drop_last() =~= walked.take(j));
    assert(walked.take(j + 1).last() == walked[j]);
    let entries = captured(walked.take(j))->Ok_0.entries;
    let key = key_of(walked[j])->0;
    let names = names_in(walked[j]);
    assert(children_of(entries, key, names) is Ok);
    lemma_children(entries, key, names);
    lemma_included(names);
    let at = included_at(names);
    let list = kids(walked, j);
    assert forall|m: int|
        #![trigger list[m]]
        0 <= m < list.len() implies child(walked, j, at[m], list[m]) && list[m] < j && object_of(
        walked,
        j,
    )->Tree_0[m] == entry_of(walked, list[m]) by {
        let k = key_in(key, names[at[m]].name@);
        assert(entry_at(entries, k) is Some);
        let c = choose|c: int| #[trigger]
            item(walked, c) && c < j && key_of(walked[c])->0 == k;
        assert(child(walked, j, at[m], c));
        assert(child(walked, j, at[m], list[m]));
        assert(item(walked, list[m]) && item(walked, c));
        assert(list[m] == c);
    }
    assert forall|a: int, c: int| #[trigger] child(walked, j, a, c) implies list.contains(c) by {
        assert(names[a].included);
        let m = choose|m: int| 0 <= m < at.len() && at[m] == a;
        assert(child(walked, j, at[m], list[m]));
        assert(item(walked, list[m]) && item(walked, c));
        assert(list[m] == c);
    }
}

// ----------------------------------------------------------------------------
// What lies within itself
// ----------------------------------------------------------------------------

/// Whether a rank falls from each tree to what is in it, so that none lies within itself.
pub open spec fn is_ranked(
    objects: Seq<(ObjectId, ObjectModel)>,
    rank: spec_fn(ObjectId) -> int,
) -> bool {
    forall|k: int, m: int|
        0 <= k < objects.len() && objects[k].1 is Tree && 0 <= m < objects[k].1->Tree_0.len()
            ==> rank((#[trigger] objects[k].1->Tree_0[m]).id) < rank(objects[k].0)
}

/// Whether writing out stops because a tree is found to lie within itself.
pub open spec fn is_cycle(fault: Option<WriteOutFault>) -> bool {
    fault is Some && fault->0 is Cycle
}

/// Whether these are places of objects that all have a higher rank than `id`.
spec fn above(
    objects: Seq<(ObjectId, ObjectModel)>,
    rank: spec_fn(ObjectId) -> int,
    visited: Set<int>,
    id: ObjectId,
) -> bool {
    forall|v: int| #[trigger]
        visited.contains(v) ==> 0 <= v < objects.len() && rank(objects[v].0) > rank(id)
}

proof fn lemma_no_cycle_at(
    path: Seq<Seq<char>>,
    id: ObjectId,
    objects: Seq<(ObjectId, ObjectModel)>,
    depth: nat,
    rank: spec_fn(ObjectId) -> int,
    visited: Set<int>,
)
    requires
        is_ranked(objects, rank),
        above(objects, rank, visited, id),
        visited.finite(),
        visited.len() + depth == objects.len(),
    ensures
        !is_cycle(plan_at(path, id, objects, depth).fault),
    decreases depth, 0nat,
{
    lemma_position(objects, id, 0);
    let p = position(objects, id);
    if p < objects.len() {
        let further = visited.insert(p);
        assert(!visited.contains(p));
        if depth == 0 {
            vstd::set_lib::lemma_int_range(0, objects.len() as int);
            let places = vstd::set_lib::set_int_range(0, objects.len() as int);
            assert(further.subset_of(places));
            vstd::set_lib::lemma_len_subset(further, places);
        } else if objects[p].1 is Tree {
            let entries = objects[p].1->Tree_0;
            assert forall|m: int| 0 <= m < entries.len() implies above(
                objects,
                rank,
                further,
                (#[trigger] entries[m]).id,
            ) by {
                assert(rank(objects[p].1->Tree_0[m].id) < rank(objects[p].0));
            }
            lemma_no_cycle_list(path, entries, objects, (depth - 1) as nat, rank, further);
        }
    }
}

proof fn lemma_no_cycle_list(
    path: Seq<Seq<char>>,
    entries: Seq<EntryModel>,
    objects: Seq<(ObjectId, ObjectModel)>,
    depth: nat,
    rank: spec_fn(ObjectId) -> int,
    visited: Set<int>,
)
    requires
        is_ranked(objects, rank),
        forall|m: int|
            0 <= m < entries.len() ==> above(objects, rank, visited, (#[trigger] entries[m]).id),
        visited.finite(),
        visited.len() + depth == objects.len(),
    ensures
        !is_cycle(plan_list(path, entries, objects, depth).fault),
    decreases depth, entries.len(),
{
    if entries.len() > 0 {
        let entry = entries.last();
        assert(above(objects, rank, visited, entries[entries.len() - 1].id));
        lemma_no_cycle_at(
            path.push(decode_utf8(entry.name)),
            entry.id,
            objects,
            depth,
            rank,
            visited,
        );
        let shorter = entries.drop_last();
        assert forall|m: int| 0 <= m < shorter.len() implies above(
            objects,
            rank,
            visited,
            (#[trigger] shorter[m]).id,
        ) by {
            assert(shorter[m] == entries[m]);
        }
        lemma_no_cycle_list(path, shorter, objects, depth, rank, visited);
    }
}

/// Only a tree that lies within itself is refused as one: where some rank falls from each tree to
/// what is in it, writing out never stops for that.
pub proof fn law_only_cycles_are_refused(
    id: ObjectId,
    objects: Seq<(ObjectId, ObjectModel)>,
    rank: spec_fn(ObjectId) -> int,
)
    requires
        is_ranked(objects, rank),
    ensures
        !is_cycle(tree_plan(id, objects).fault),
{
    lemma_no_cycle_at(Seq::empty(), id, objects, objects.len(), rank, Set::empty());
}

/// Where from `i` on the first file or directory is whose object has this name.
spec fn first_from(walked: Seq<Walked>, id: ObjectId, i: int) -> int
    decreases walked.len() - i,
{
    if i >= walked.len() || item(walked, i) && id_of(walked, i) == id {
        i
    } else {
        first_from(walked, id, i + 1)
    }
}

proof fn lemma_first(walked: Seq<Walked>, i: int, j: int)
    requires
        i <= j,
        item(walked, j),
    ensures
        i <= first_from(walked, id_of(walked, j), i) <= j,
        item(walked, first_from(walked, id_of(walked, j), i)),
        id_of(walked, first_from(walked, id_of(walked, j), i)) == id_of(walked, j),
    decreases j - i,
{
    if !(item(walked, i) && id_of(walked, i) == id_of(walked, j)) {
        lemma_first(walked, i + 1, j);
    }
}

proof fn lemma_captured_is_ranked(walked: Seq<Walked>)
    requires
        captured(walked) is Ok,
        is_walk(walked),
        no_clash(walked),
    ensures
        is_ranked(captured(walked)->Ok_0.objects, |id: ObjectId| first_from(walked, id, 0)),
{
    let objects = captured(walked)->Ok_0.objects;
    let rank = |id: ObjectId| first_from(walked, id, 0);
    lemma_holds(walked, walked.len() as int);
    assert(walked.take(walked.len() as int) =~= walked);
    assert forall|k: int, m: int|
        0 <= k < objects.len() && objects[k].1 is Tree && 0 <= m
            < objects[k].1->Tree_0.len() implies rank((#[trigger] objects[k].1->Tree_0[m]).id)
        < rank(objects[k].0) by {
        let j = choose|j: int|
            #![trigger item(walked, j)]
            item(walked, j) && j < walked.len() && objects[k] == (
                id_of(walked, j),
                object_of(walked, j),
            );
        lemma_first(walked, 0, j);
        let i = first_from(walked, id_of(walked, j), 0);
        assert(object_of(walked, i) == object_of(walked, j));
        lemma_directory(walked, i);
        let c = kids(walked, i)[m];
        assert(child(walked, i, included_at(names_in(walked[i]))[m], c));
        lemma_first(walked, 0, c);
    }
}

// ----------------------------------------------------------------------------
// What is written out
// ----------------------------------------------------------------------------

/// Whether what the walk comes upon is among the objects, each under its name.
spec fn stored(walked: Seq<Walked>, objects: Seq<(ObjectId, ObjectModel)>) -> bool {
    &&& captured(walked) is Ok
    &&& is_walk(walked)
    &&& no_clash(walked)
    &&& apart(objects)
    &&& forall|i: int|
        #![trigger item(walked, i)]
        item(walked, i) ==> objects.contains((id_of(walked, i), object_of(walked, i)))
}

/// Whether these are the places that the actions come from, and with each all that is in it.
spec fn traced(
    walked: Seq<Walked>,
    actions: Seq<ActionModel>,
    trace: Seq<(Seq<Seq<char>>, int)>,
) -> bool {
    &&& trace.len() == actions.len()
    &&& forall|k: int|
        0 <= k < trace.len() ==> found(walked, (#[trigger] trace[k]).0, trace[k].1) && actions[k]
            == action_of(walked, trace[k].0, trace[k].1)
    &&& forall|q: Seq<Seq<char>>, j: int, a: int, c: int|
        #![trigger trace.contains((q, j)), child(walked, j, a, c)]
        trace.contains((q, j)) && child(walked, j, a, c) ==> trace.contains(
            (q.push(name_of(walked[c])), c),
        )
}

proof fn lemma_looked_up(walked: Seq<Walked>, objects: Seq<(ObjectId, ObjectModel)>, i: int)
    requires
        stored(walked, objects),
        item(walked, i),
    ensures
        0 <= position(objects, id_of(walked, i)) < objects.len(),
        objects[position(objects, id_of(walked, i))].1 == object_of(walked, i),
{
    let id = id_of(walked, i);
    lemma_position(objects, id, 0);
    let p = position(objects, id);
    let pair = (id, object_of(walked, i));
    let m = choose|m: int| 0 <= m < objects.len() && objects[m] == pair;
    assert(objects[m].0 == id);
    assert(p < objects.len());
    if p < m {
        assert(objects[p].0 != objects[m].0);
    } else if m < p {
        assert(objects[m].0 != objects[p].0);
    }
}

proof fn lemma_names_are_text(entries: Seq<EntryModel>)
    requires
        forall|m: int|
            0 <= m < entries.len() ==> vstd::utf8::valid_utf8(#[trigger] entries[m].name),
    ensures
        bad_name(entries) is None,
    decreases entries.len(),
{
    if entries.len() > 0 {
        let shorter = entries.drop_last();
        assert forall|m: int| 0 <= m < shorter.len() implies vstd::utf8::valid_utf8(
            #[trigger] shorter[m].name,
        ) by {
            assert(shorter[m] == entries[m]);
        }
        lemma_names_are_text(shorter);
        assert(vstd::utf8::valid_utf8(entries[entries.len() - 1].name));
    }
}

/// Places joined to others.
proof fn lemma_joined(
    walked: Seq<Walked>,
    first: Seq<ActionModel>,
    rest: Seq<ActionModel>,
    a: Seq<(Seq<Seq<char>>, int)>,
    b: Seq<(Seq<Seq<char>>, int)>,
)
    requires
        traced(walked, first, a),
        traced(walked, rest, b),
    ensures
        traced(walked, first + rest, a + b),
        forall|x: (Seq<Seq<char>>, int)| a.contains(x) ==> #[trigger] (a + b).contains(x),
        forall|x: (Seq<Seq<char>>, int)| b.contains(x) ==> #[trigger] (a + b).contains(x),
{
    let all = a + b;
    assert forall|x: (Seq<Seq<char>>, int)| a.contains(x) implies #[trigger] all.contains(x) by {
        let k = choose|k: int| 0 <= k < a.len() && a[k] == x;
        assert(all[k] == x);
    }
    assert forall|x: (Seq<Seq<char>>, int)| b.contains(x) implies #[trigger] all.contains(x) by {
        let k = choose|k: int| 0 <= k < b.len() && b[k] == x;
        assert(all[a.len() + k] == x);
    }
    assert forall|k: int| 0 <= k < all.len() implies found(
        walked,
        (#[trigger] all[k]).0,
        all[k].1,
    ) && (first + rest)[k] == action_of(walked, all[k].0, all[k].1) by {
        if k < a.len() {
            assert(all[k] == a[k]);
        } else {
            assert(all[k] == b[k - a.len()]);
        }
    }
    assert forall|q: Seq<Seq<char>>, j: int, e: int, c: int|
        #![trigger all.contains((q, j)), child(walked, j, e, c)]
        all.contains((q, j)) && child(walked, j, e, c) implies all.contains(
        (q.push(name_of(walked[c])), c),
    ) by {
        let k = choose|k: int| 0 <= k < all.len() && all[k] == (q, j);
        if k < a.len() {
            assert(a[k] == (q, j));
            assert(a.contains((q, j)));
        } else {
            assert(b[k - a.len()] == (q, j));
            assert(b.contains((q, j)));
        }
    }
}

proof fn lemma_plan_at(
    walked: Seq<Walked>,
    objects: Seq<(ObjectId, ObjectModel)>,
    path: Seq<Seq<char>>,
    i: int,
    depth: nat,
) -> (trace: Seq<(Seq<Seq<char>>, int)>)
    requires
        stored(walked, objects),
        item(walked, i),
        found(walked, path, i),
        !is_cycle(plan_at(path, id_of(walked, i), objects, depth).fault),
    ensures
        plan_at(path, id_of(walked, i), objects, depth).fault is None,
        traced(walked, plan_at(path, id_of(walked, i), objects, depth).actions, trace),
        trace.contains((path, i)),
    decreases depth, 0int,
{
    let plan = plan_at(path, id_of(walked, i), objects, depth);
    let first = seq![(path, i)];
    lemma_looked_up(walked, objects, i);
    assert(first[0] == (path, i));
    if walked[i] is File {
        assert(plan.actions =~= seq![action_of(walked, path, i)]);
        assert forall|q: Seq<Seq<char>>, j: int, a: int, c: int|
            #![trigger first.contains((q, j)), child(walked, j, a, c)]
            first.contains((q, j)) && child(walked, j, a, c) implies first.contains(
            (q.push(name_of(walked[c])), c),
        ) by {
            assert(j == i);
        }
        first
    } else {
        lemma_directory(walked, i);
        let list = kids(walked, i);
        let entries = object_of(walked, i)->Tree_0;
        assert forall|m: int| 0 <= m < entries.len() implies vstd::utf8::valid_utf8(
            #[trigger] entries[m].name,
        ) by {
            assert(entries[m] == entry_of(walked, list[m]));
            encode_utf8_valid_utf8(name_of(walked[list[m]]));
        }
        lemma_names_are_text(entries);
        assert(entries.take(entries.len() as int) =~= entries);
        let below = plan_list(path, entries, objects, (depth - 1) as nat);
        let later = lemma_plan_list(
            walked,
            objects,
            path,
            i,
            entries.len() as int,
            (depth - 1) as nat,
        );
        let trace = first + later;
        assert(plan.actions =~= seq![action_of(walked, path, i)] + below.actions);
        assert(trace[0] == (path, i));
        assert forall|x: (Seq<Seq<char>>, int)| later.contains(x) implies #[trigger] trace.contains(
            x,
        ) by {
            let k = choose|k: int| 0 <= k < later.len() && later[k] == x;
            assert(trace[k + 1] == x);
        }
        assert forall|k: int| 0 <= k < trace.len() implies found(
            walked,
            (#[trigger] trace[k]).0,
            trace[k].1,
        ) && plan.actions[k] == action_of(walked, trace[k].0, trace[k].1) by {
            if k > 0 {
                assert(trace[k] == later[k - 1]);
            }
        }
        assert forall|q: Seq<Seq<char>>, j: int, a: int, c: int|
            #![trigger trace.contains((q, j)), child(walked, j, a, c)]
            trace.contains((q, j)) && child(walked, j, a, c) implies trace.contains(
            (q.push(name_of(walked[c])), c),
        ) by {
            let k = choose|k: int| 0 <= k < trace.len() && trace[k] == (q, j);
            if k == 0 {
                let m = choose|m: int| 0 <= m < list.len() && list[m] == c;
                assert(later.contains((path.push(name_of(walked[list[m]])), list[m])));
            } else {
                assert(later[k - 1] == (q, j));
                assert(later.contains((q, j)));
            }
        }
        trace
    }
}

proof fn lemma_plan_list(
    walked: Seq<Walked>,
    objects: Seq<(ObjectId, ObjectModel)>,
    path: Seq<Seq<char>>,
    j: int,
    n: int,
    depth: nat,
) -> (trace: Seq<(Seq<Seq<char>>, int)>)
    requires
        stored(walked, objects),
        item(walked, j),
        walked[j] is Directory,
        found(walked, path, j),
        0 <= n <= object_of(walked, j)->Tree_0.len(),
        !is_cycle(plan_list(path, object_of(walked, j)->Tree_0.take(n), objects, depth).fault),
    ensures
        plan_list(path, object_of(walked, j)->Tree_0.take(n), objects, depth).fault is None,
        traced(
            walked,
            plan_list(path, object_of(walked, j)->Tree_0.take(n), objects, depth).actions,
            trace,
        ),
        forall|m: int|
            0 <= m < n ==> trace.contains(
                (path.push(name_of(walked[#[trigger] kids(walked, j)[m]])), kids(walked, j)[m]),
            ),
    decreases depth, n,
{
    let entries = object_of(walked, j)->Tree_0.take(n);
    if n == 0 {
        Seq::empty()
    } else {
        lemma_directory(walked, j);
        let list = kids(walked, j);
        let c = list[n - 1];
        let below = path.push(name_of(walked[c]));
        assert(child(walked, j, included_at(names_in(walked[j]))[n - 1], c));
        assert(entries.last() == entry_of(walked, c));
        encode_utf8_decode_utf8(name_of(walked[c]));
        assert(below.drop_last() =~= path);
        assert(found(walked, below, c));
        assert(entries.drop_last() =~= object_of(walked, j)->Tree_0.take(n - 1));
        let first = plan_at(below, id_of(walked, c), objects, depth);
        let rest = plan_list(path, entries.drop_last(), objects, depth);
        let a = lemma_plan_at(walked, objects, below, c, depth);
        let b = lemma_plan_list(walked, objects, path, j, n - 1, depth);
        lemma_joined(walked, first.actions, rest.actions, a, b);
        assert(plan_list(path, entries, objects, depth).actions == first.actions + rest.actions);
        let trace = a + b;
        assert forall|m: int| 0 <= m < n implies trace.contains(
            (path.push(name_of(walked[#[trigger] list[m]])), list[m]),
        ) by {
            if m == n - 1 {
                assert(a.contains((below, c)));
            } else {
                assert(b.contains((path.push(name_of(walked[list[m]])), list[m])));
            }
        }
        trace
    }
}

proof fn lemma_found_is_traced(
    walked: Seq<Walked>,
    trace: Seq<(Seq<Seq<char>>, int)>,
    actions: Seq<ActionModel>,
    root: int,
    path: Seq<Seq<char>>,
    i: int,
)
    requires
        is_walk(walked),
        item(walked, root),
        key_of(walked[root])->0.len() == 0,
        traced(walked, actions, trace),
        trace.contains((Seq::<Seq<char>>::empty(), root)),
        found(walked, path, i),
    ensures
        trace.contains((path, i)),
    decreases path.len(),
{
    if path.len() == 0 {
        assert(path =~= Seq::<Seq<char>>::empty());
        assert(key_of(walked[i])->0 =~= key_of(walked[root])->0);
        assert(item(walked, i) && item(walked, root));
    } else {
        let (j, a) = choose|j: int, a: int|
            found(walked, path.drop_last(), j) && #[trigger] child(walked, j, a, i);
        lemma_found_is_traced(walked, trace, actions, root, path.drop_last(), j);
        assert(path.drop_last().push(name_of(walked[i])) =~= path);
    }
}

/// What is captured is written out again: where no two objects that differ have the same name,
/// writing out a captured directory succeeds, each file and directory goes to the path that it was
/// found at with the content that was captured, and nothing else is written.
pub proof fn law_captured_tree_is_written_out(walked: Seq<Walked>)
    requires
        is_walk(walked),
        no_clash(walked),
        tree_captured(walked) is Ok,
    ensures
        ({
            let (id, objects) = tree_captured(walked)->Ok_0;
            let written = tree_plan(id, objects);
            &&& written.fault is None
            &&& forall|path: Seq<Seq<char>>, i: int| #[trigger]
                found(walked, path, i) ==> written.actions.contains(action_of(walked, path, i))
            &&& forall|k: int|
                0 <= k < written.actions.len() ==> exists|path: Seq<Seq<char>>, i: int|
                    found(walked, path, i) && #[trigger] written.actions[k] == #[trigger] action_of(
                        walked,
                        path,
                        i,
                    )
        }),
{
    let (id, objects) = tree_captured(walked)->Ok_0;
    let written = tree_plan(id, objects);
    let state = captured(walked)->Ok_0;
    lemma_holds(walked, walked.len() as int);
    assert(walked.take(walked.len() as int) =~= walked);
    assert(entry_at(state.entries, Seq::<u8>::empty()) is Some);
    let root = choose|i: int| #[trigger]
        item(walked, i) && i < walked.len() && key_of(walked[i])->0 == Seq::<u8>::empty();
    let start = Seq::<Seq<char>>::empty();
    assert(item(walked, root));
    assert(id == id_of(walked, root));
    assert(found(walked, start, root));
    lemma_captured_is_ranked(walked);
    law_only_cycles_are_refused(id, objects, |id: ObjectId| first_from(walked, id, 0));
    let trace = lemma_plan_at(walked, objects, start, root, objects.len());
    assert forall|path: Seq<Seq<char>>, i: int| #[trigger]
        found(walked, path, i) implies written.actions.contains(action_of(walked, path, i)) by {
        lemma_found_is_traced(walked, trace, written.actions, root, path, i);
        let k = choose|k: int| 0 <= k < trace.len() && trace[k] == (path, i);
        assert(written.actions[k] == action_of(walked, path, i));
    }
    assert forall|k: int| 0 <= k < written.actions.len() implies exists|
        path: Seq<Seq<char>>,
        i: int,
    |
        found(walked, path, i) && #[trigger] written.actions[k] == #[trigger] action_of(
            walked,
            path,
            i,
        ) by {
        let (path, i) = trace[k];
        assert(found(walked, path, i) && written.actions[k] == action_of(walked, path, i));
    }
}

// ----------------------------------------------------------------------------
// What stops a capture
// ----------------------------------------------------------------------------

/// Whether nothing was captured under this key.
spec fn is_nowhere(walked: Seq<Walked>, key: Seq<u8>) -> bool {
    forall|c: int| 0 <= c < walked.len() ==> key_of(#[trigger] walked[c]) != Some(key)
}

proof fn lemma_nowhere(walked: Seq<Walked>, key: Seq<u8>)
    requires
        captured(walked) is Ok,
    ensures
        entry_at(captured(walked)->Ok_0.entries, key) is None <==> is_nowhere(walked, key),
    decreases walked.len(),
{
    if walked.len() > 0 {
        let shorter = walked.drop_last();
        lemma_nowhere(shorter, key);
        let before = captured(shorter)->Ok_0;
        let state = captured(walked)->Ok_0;
        let last = walked.last();
        if key_of(last) is Some {
            assert(state.entries.len() == before.entries.len() + 1);
            assert(state.entries.drop_last() =~= before.entries);
            assert(state.entries.last().0 == key_of(last)->0);
        } else {
            assert(state == before);
        }
        if is_nowhere(walked, key) {
            assert forall|c: int| 0 <= c < shorter.len() implies key_of(#[trigger] shorter[c])
                != Some(key) by {
                assert(walked[c] == shorter[c]);
            }
            assert(key_of(walked[walked.len() - 1]) != Some(key));
        }
        if is_nowhere(shorter, key) && key_of(last) != Some(key) {
            assert forall|c: int| 0 <= c < walked.len() implies key_of(#[trigger] walked[c])
                != Some(key) by {
                if c < shorter.len() {
                    assert(shorter[c] == walked[c]);
                }
            }
        }
    }
}

proof fn lemma_missing_child(
    entries: Seq<(Seq<u8>, EntryModel)>,
    key: Seq<u8>,
    names: Seq<SubEntry>,
) -> (a: int)
    requires
        children_of(entries, key, names) is Err,
    ensures
        0 <= a < names.len(),
        names[a].included,
        children_of(entries, key, names)->Err_0 == key_in(key, names[a].name@),
        entry_at(entries, key_in(key, names[a].name@)) is None,
    decreases names.len(),
{
    if children_of(entries, key, names.drop_last()) is Err {
        lemma_missing_child(entries, key, names.drop_last())
    } else {
        names.len() - 1
    }
}

/// Whether what the walk comes upon at `i` is a reason for this fault: it could not be read, it is
/// neither a file nor a directory, it is a directory with something that the walk did not come
/// upon before or whose name cannot be written, or its object has no name.
pub open spec fn is_reason(walked: Seq<Walked>, i: int, fault: CaptureFault) -> bool {
    match fault {
        CaptureFault::Read(text) => match walked[i] {
            Walked::Failed(t) => t@ == text,
            Walked::File { key, name, content } => content is Err && content->Err_0@ == text,
            Walked::Directory { key, name, entries, failure } => failure is Some
                && failure->Some_0@ == text,
            _ => false,
        },
        CaptureFault::Unsupported(path) => walked[i] is Other && walked[i]->path@ == path,
        CaptureFault::MissingEntry(key) => {
            &&& walked[i] is Directory
            &&& exists|a: int|
                0 <= a < names_in(walked[i]).len() && (#[trigger] names_in(
                    walked[i],
                )[a]).included && key == key_in(
                    key_of(walked[i])->0,
                    names_in(walked[i])[a].name@,
                )
            &&& forall|c: int| 0 <= c < i ==> key_of(#[trigger] walked[c]) != Some(key)
        },
        CaptureFault::BrokenName(name) => walked[i] is Directory && name.contains(0u8),
        CaptureFault::Collision(digest) => match walked[i] {
            Walked::File { key, name, content } => content is Ok && object_hash(
                false,
                content->Ok_0@,
            ) == Err::<ObjectId, ObjectId>(digest),
            Walked::Directory { key, name, entries, failure } => exists|data: Seq<u8>| #[trigger]
                object_hash(true, data) == Err::<ObjectId, ObjectId>(digest),
            _ => false,
        },
        CaptureFault::MissingRoot => false,
    }
}

proof fn lemma_broken_name(entries: Seq<EntryModel>)
    requires
        broken_name(entries) is Some,
    ensures
        broken_name(entries)->Some_0.contains(0u8),
    decreases entries.len(),
{
    if broken_name(entries.drop_last()) is Some {
        lemma_broken_name(entries.drop_last());
    }
}

/// A capture that fails does so for a reason that the walk came upon.
pub proof fn law_failed_capture_has_a_reason(walked: Seq<Walked>) -> (i: int)
    requires
        captured(walked) is Err,
    ensures
        0 <= i < walked.len(),
        is_reason(walked, i, captured(walked)->Err_0),
    decreases walked.len(),
{
    let shorter = walked.drop_last();
    let fault = captured(walked)->Err_0;
    if captured(shorter) is Err {
        let i = law_failed_capture_has_a_reason(shorter);
        assert(shorter[i] == walked[i]);
        if let CaptureFault::MissingEntry(key) = fault {
            assert forall|c: int| 0 <= c < i implies key_of(#[trigger] walked[c]) != Some(key) by {
                assert(shorter[c] == walked[c]);
            }
        }
        i
    } else {
        let i = walked.len() - 1;
        let state = captured(shorter)->Ok_0;
        assert(after(state, walked[i]) == Err::<Captured, CaptureFault>(fault));
        if walked[i] is Directory {
            let key = key_of(walked[i])->0;
            let names = names_in(walked[i]);
            match children_of(state.entries, key, names) {
                Err(missing) => {
                    let a = lemma_missing_child(state.entries, key, names);
                    lemma_nowhere(shorter, missing);
                    assert(names_in(walked[i])[a].included);
                    assert forall|c: int| 0 <= c < i implies key_of(#[trigger] walked[c]) != Some(
                        missing,
                    ) by {
                        assert(shorter[c] == walked[c]);
                    }
                },
                Ok(list) => {
                    if broken_name(list) is Some {
                        lemma_broken_name(list);
                    }
                    assert(fault is Collision ==> object_hash(true, tree_bytes(list)) == Err::<
                        ObjectId,
                        ObjectId,
                    >(fault->Collision_0));
                },
            }
        }
        i
    }
}

/// Nothing that could not be read is passed over, nor anything but files and directories: what is
/// captured is whole.
pub proof fn law_capture_is_whole(walked: Seq<Walked>, i: int)
    requires
        captured(walked) is Ok,
        0 <= i < walked.len(),
    ensures
        match walked[i] {
            Walked::Failed(_) => false,
            Walked::Other { path } => false,
            Walked::Skipped => true,
            Walked::File { key, name, content } => content is Ok,
            Walked::Directory { key, name, entries, failure } => failure is None,
        },
{
    lemma_prefix(walked, i + 1);
    assert(walked.take(i + 1).drop_last() =~= walked.take(i));
    assert(walked.take(i + 1).last() == walked[i]);
}

/// A captured directory has a tree exactly where the walk came upon its root.
pub proof fn law_root_must_be_walked(walked: Seq<Walked>)
    requires
        captured(walked) is Ok,
    ensures
        tree_captured(walked) is Ok <==> exists|i: int| #[trigger]
            item(walked, i) && key_of(walked[i])->0.len() == 0,
{
    lemma_nowhere(walked, Seq::empty());
    if exists|i: int| #[trigger] item(walked, i) && key_of(walked[i])->0.len() == 0 {
        let i = choose|i: int| #[trigger] item(walked, i) && key_of(walked[i])->0.len() == 0;
        assert(key_of(walked[i])->0 =~= Seq::empty());
    }
    if !is_nowhere(walked, Seq::empty()) {
        let c = choose|c: int|
            0 <= c < walked.len() && key_of(#[trigger] walked[c]) == Some(Seq::<u8>::empty());
        assert(item(walked, c));
    }
}

/// Whether an entry is that of what the walk came upon: under its name, as a file with the object
/// of its content, or as a directory with the object of its tree.
pub open spec fn is_entry_of(walked: Seq<Walked>, c: int, entry: EntryModel) -> bool {
    &&& entry.name == encode_utf8(name_of(walked[c]))
    &&& walked[c] is File ==> entry.kind == EntryKind::Blob && object_hash(
        false,
        walked[c]->content->Ok_0@,
    ) == Ok::<ObjectId, ObjectId>(entry.id)
    &&& walked[c] is Directory ==> entry.kind == EntryKind::Tree && object_of(walked, c) is Tree
        && object_hash(true, tree_bytes(object_of(walked, c)->Tree_0)) == Ok::<ObjectId, ObjectId>(
        entry.id,
    )
}

proof fn lemma_entry_of(walked: Seq<Walked>, c: int)
    requires
        captured(walked) is Ok,
        item(walked, c),
    ensures
        is_entry_of(walked, c, entry_of(walked, c)),
{
    lemma_prefix(walked, c);
    lemma_prefix(walked, c + 1);
    assert(walked.take(c + 1).drop_last() =~= walked.take(c));
    assert(walked.take(c + 1).last() == walked[c]);
}

/// A tree has an entry for each name of its directory that is to be captured: under that name, as
/// a file with its content's object, or as a directory. It has no others.
pub proof fn law_trees_list_their_directories(walked: Seq<Walked>, j: int, a: int, c: int, n: int)
    requires
        captured(walked) is Ok,
        is_walk(walked),
        no_clash(walked),
        walked[j] is Directory,
        child(walked, j, a, c),
        0 <= n < object_of(walked, j)->Tree_0.len(),
    ensures
        object_of(walked, j) is Tree,
        exists|m: int|
            0 <= m < object_of(walked, j)->Tree_0.len() && is_entry_of(
                walked,
                c,
                #[trigger] object_of(walked, j)->Tree_0[m],
            ),
        exists|b: int, d: int| #[trigger]
            child(walked, j, b, d) && is_entry_of(walked, d, object_of(walked, j)->Tree_0[n]),
{
    lemma_directory(walked, j);
    let list = object_of(walked, j)->Tree_0;
    let m = choose|m: int| 0 <= m < kids(walked, j).len() && kids(walked, j)[m] == c;
    assert(kids(walked, j)[m] == c);
    assert(list[m] == entry_of(walked, c));
    lemma_entry_of(walked, c);
    let d = kids(walked, j)[n];
    let b = included_at(names_in(walked[j]))[n];
    assert(child(walked, j, b, d));
    assert(list[n] == entry_of(walked, d));
    lemma_entry_of(walked, d);
}

// ----------------------------------------------------------------------------
// In which order it is written out
// ----------------------------------------------------------------------------

/// Where an action writes to.
pub open spec fn written_at(action: ActionModel) -> Seq<Seq<char>> {
    match action {
        ActionModel::Directory(path) => path,
        ActionModel::File(path, _) => path,
    }
}

/// Whether the directory of what is written at `k` is made before it.
pub open spec fn comes_after_its_directory(actions: Seq<ActionModel>, k: int) -> bool {
    exists|j: int|
        0 <= j < k && #[trigger] actions[j] == ActionModel::Directory(
            written_at(actions[k]).drop_last(),
        )
}

/// Whether a fault tells what is wrong with the objects: that one is missing, or that a name is no
/// text.
pub open spec fn is_true_fault(
    objects: Seq<(ObjectId, ObjectModel)>,
    fault: Option<WriteOutFault>,
) -> bool {
    match fault {
        Some(WriteOutFault::MissingObject(id, _)) => forall|m: int|
            0 <= m < objects.len() ==> (#[trigger] objects[m]).0 != id,
        Some(WriteOutFault::Name(name)) => !valid_utf8(name),
        _ => true,
    }
}

proof fn lemma_order_at(
    path: Seq<Seq<char>>,
    id: ObjectId,
    objects: Seq<(ObjectId, ObjectModel)>,
    depth: nat,
)
    ensures
        ({
            let plan = plan_at(path, id, objects, depth);
            &&& is_true_fault(objects, plan.fault)
            &&& forall|k: int|
                0 <= k < plan.actions.len() ==> if k == 0 {
                    written_at(#[trigger] plan.actions[k]) == path
                } else {
                    written_at(plan.actions[k]).len() > 0 && comes_after_its_directory(
                        plan.actions,
                        k,
                    )
                }
        }),
    decreases depth, 0nat,
{
    let plan = plan_at(path, id, objects, depth);
    let i = position(objects, id);
    lemma_position(objects, id, 0);
    if i < objects.len() && depth > 0 {
        if let ObjectModel::Tree(entries) = objects[i].1 {
            if bad_name(entries) is None {
                let below = plan_list(path, entries, objects, (depth - 1) as nat);
                lemma_order_list(path, entries, objects, (depth - 1) as nat);
                assert forall|k: int| 0 <= k < plan.actions.len() implies if k == 0 {
                    written_at(#[trigger] plan.actions[k]) == path
                } else {
                    written_at(plan.actions[k]).len() > 0 && comes_after_its_directory(
                        plan.actions,
                        k,
                    )
                } by {
                    if k > 0 {
                        let m = k - 1;
                        assert(plan.actions[k] == below.actions[m]);
                        assert(plan.actions[0] == ActionModel::Directory(path));
                        if written_at(below.actions[m]).drop_last() != path {
                            assert(comes_after_its_directory(below.actions, m));
                            let j = choose|j: int|
                                0 <= j < m && #[trigger] below.actions[j]
                                    == ActionModel::Directory(
                                    written_at(below.actions[m]).drop_last(),
                                );
                            assert(plan.actions[j + 1] == below.actions[j]);
                        }
                    }
                }
            } else {
                lemma_bad_name(entries);
            }
        }
    }
}

proof fn lemma_order_list(
    path: Seq<Seq<char>>,
    entries: Seq<EntryModel>,
    objects: Seq<(ObjectId, ObjectModel)>,
    depth: nat,
)
    ensures
        ({
            let plan = plan_list(path, entries, objects, depth);
            &&& is_true_fault(objects, plan.fault)
            &&& forall|k: int|
                0 <= k < plan.actions.len() ==> written_at(#[trigger] plan.actions[k]).len() > 0
                    && (written_at(plan.actions[k]).drop_last() == path
                    || comes_after_its_directory(plan.actions, k))
        }),
    decreases depth, entries.len(),
{
    if entries.len() > 0 {
        let plan = plan_list(path, entries, objects, depth);
        let entry = entries.last();
        let at = path.push(decode_utf8(entry.name));
        let first = plan_at(at, entry.id, objects, depth);
        lemma_order_at(at, entry.id, objects, depth);
        assert(at.drop_last() =~= path);
        if first.fault is None {
            let rest = plan_list(path, entries.drop_last(), objects, depth);
            lemma_order_list(path, entries.drop_last(), objects, depth);
            assert forall|k: int| 0 <= k < plan.actions.len() implies written_at(
                #[trigger] plan.actions[k],
            ).len() > 0 && (written_at(plan.actions[k]).drop_last() == path
                || comes_after_its_directory(plan.actions, k)) by {
                let n = first.actions.len() as int;
                if k < n {
                    assert(plan.actions[k] == first.actions[k]);
                    if k > 0 {
                        assert(comes_after_its_directory(first.actions, k));
                        let j = choose|j: int|
                            0 <= j < k && #[trigger] first.actions[j] == ActionModel::Directory(
                                written_at(first.actions[k]).drop_last(),
                            );
                        assert(plan.actions[j] == first.actions[j]);
                    }
                } else {
                    let m = k - n;
                    assert(plan.actions[k] == rest.actions[m]);
                    if written_at(rest.actions[m]).drop_last() != path {
                        assert(comes_after_its_directory(rest.actions, m));
                        let j = choose|j: int|
                            0 <= j < m && #[trigger] rest.actions[j] == ActionModel::Directory(
                                written_at(rest.actions[m]).drop_last(),
                            );
                        assert(plan.actions[n + j] == rest.actions[j]);
                    }
                }
            }
        }
    }
}

proof fn lemma_bad_name(entries: Seq<EntryModel>)
    requires
        bad_name(entries) is Some,
    ensures
        !valid_utf8(bad_name(entries)->Some_0),
    decreases entries.len(),
{
    if bad_name(entries.drop_last()) is Some {
        lemma_bad_name(entries.drop_last());
    }
}

/// A directory is made before anything in it is written, and what is written first is the root
/// itself. What ends the writing is true of the objects.
pub proof fn law_directories_are_made_first(
    id: ObjectId,
    objects: Seq<(ObjectId, ObjectModel)>,
    k: int,
)
    requires
        0 <= k < tree_plan(id, objects).actions.len(),
    ensures
        k == 0 ==> written_at(tree_plan(id, objects).actions[k]).len() == 0,
        k > 0 ==> comes_after_its_directory(tree_plan(id, objects).actions, k),
        is_true_fault(objects, tree_plan(id, objects).fault),
{
    lemma_order_at(Seq::empty(), id, objects, objects.len());
    assert(written_at(tree_plan(id, objects).actions[k]).len() >= 0);
}

/// A tree has its entries in the order of the names of its directory.
pub proof fn law_trees_keep_the_order_of_names(
    walked: Seq<Walked>,
    j: int,
    a: int,
    c: int,
    b: int,
    d: int,
) -> (places: (int, int))
    requires
        captured(walked) is Ok,
        is_walk(walked),
        no_clash(walked),
        walked[j] is Directory,
        child(walked, j, a, c),
        child(walked, j, b, d),
        a < b,
    ensures
        0 <= places.0 < places.1 < object_of(walked, j)->Tree_0.len(),
        object_of(walked, j)->Tree_0[places.0].name == encode_utf8(name_of(walked[c])),
        object_of(walked, j)->Tree_0[places.1].name == encode_utf8(name_of(walked[d])),
{
    lemma_directory(walked, j);
    let names = names_in(walked[j]);
    lemma_included(names);
    let at = included_at(names);
    assert(names[a].included && names[b].included);
    let m = choose|m: int| 0 <= m < at.len() && at[m] == a;
    let n = choose|n: int| 0 <= n < at.len() && at[n] == b;
    assert(child(walked, j, at[m], kids(walked, j)[m]));
    assert(child(walked, j, at[n], kids(walked, j)[n]));
    assert(item(walked, kids(walked, j)[m]) && item(walked, c));
    assert(item(walked, kids(walked, j)[n]) && item(walked, d));
    assert(kids(walked, j)[m] == c);
    assert(kids(walked, j)[n] == d);
    if n <= m {
        assert(n == m || at[n] < at[m]);
    }
    (m, n)
}

/// The tree of a captured directory is that of its root.
pub proof fn law_captured_tree_is_that_of_the_root(walked: Seq<Walked>, i: int)
    requires
        is_walk(walked),
        no_clash(walked),
        tree_captured(walked) is Ok,
        item(walked, i),
        key_of(walked[i])->0.len() == 0,
        walked[i] is Directory,
    ensures
        object_of(walked, i) is Tree,
        object_hash(true, tree_bytes(object_of(walked, i)->Tree_0)) == Ok::<ObjectId, ObjectId>(
            tree_captured(walked)->Ok_0.0,
        ),
{
    lemma_holds(walked, walked.len() as int);
    assert(walked.take(walked.len() as int) =~= walked);
    assert(key_of(walked[i])->0 =~= Seq::<u8>::empty());
    lemma_prefix(walked, i + 1);
    assert(walked.take(i + 1).drop_last() =~= walked.take(i));
    assert(walked.take(i + 1).last() == walked[i]);
}

} // verus!
