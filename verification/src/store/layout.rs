//! What the store keeps where, and what its commits are called.

use vstd::prelude::*;
use vstd::utf8::encode_utf8;

use crate::bytes::bytes_of;
use crate::object::ObjectId;
use crate::text::same;

verus! {

/// The entry holding the manifest in every manifest tree.
pub fn manifest_file() -> (r: &'static str)
    ensures
        r@ == "manifest.lua"@,
{
    "manifest.lua"
}

/// The manifest of a new store.
pub fn initial_manifest() -> (r: Vec<u8>)
    ensures
        r@ == encode_utf8("return { topics = {} }\n"@),
{
    bytes_of("return { topics = {} }\n")
}

/// The message of a commit of the manifest.
pub fn manifest_message() -> (r: String)
    ensures
        r@ == "Update manifest"@,
{
    "Update manifest".to_owned()
}

/// The message of a commit of a topic.
pub fn topic_message(topic: &str) -> (r: String)
    ensures
        r@ == "Sync topic '"@ + topic@ + "'"@,
{
    "Sync topic '".to_owned().concat(topic).concat("'")
}

/// The message of a commit that reconciles a branch.
pub fn reconcile_message(branch: &str) -> (r: String)
    ensures
        r@ == "Reconcile "@ + branch@,
{
    "Reconcile ".to_owned().concat(branch)
}

/// The parents of a commit of the manifest: its head, where it has one.
pub fn manifest_parents(head: Option<ObjectId>) -> (r: Vec<ObjectId>)
    ensures
        r@ == match head {
            Some(head) => seq![head],
            None => Seq::empty(),
        },
{
    let mut parents: Vec<ObjectId> = Vec::new();
    if let Some(head) = head {
        parents.push(head);
        assert(parents@ =~= seq![head]);
    }
    parents
}

/// The lock file of a store.
pub open spec fn lock_file_of(store_path: Seq<char>) -> Seq<char> {
    store_path + ".lock"@
}

/// Where the lock of a store is.
pub fn lock_path(store_path: &str) -> (r: String)
    ensures
        r@ == lock_file_of(store_path@),
{
    store_path.to_owned().concat(".lock")
}

/// The directory that a store is in, where it is not there yet: that of its path, or the current
/// one where the path has none.
pub fn lock_directory(parent: Option<&str>) -> (r: String)
    ensures
        r@ == match parent {
            Some(parent) if parent@.len() > 0 => parent@,
            _ => "."@,
        },
{
    proof {
        reveal_strlit("");
    }
    if let Some(parent) = parent {
        if !same(parent, "") {
            assert(parent@.len() > 0 || parent@ =~= ""@);
            return parent.to_owned();
        }
    }
    ".".to_owned()
}

/// What is said of a store that is locked.
pub fn in_use_message(store_path: &str) -> (r: String)
    ensures
        r@ == "Porchetta store is already in use: "@ + store_path@,
{
    "Porchetta store is already in use: ".to_owned().concat(store_path)
}

// ----------------------------------------------------------------------------
// Laws
// ----------------------------------------------------------------------------

/// The lock of a store is not in its directory, so that it outlives the removal of the directory.
pub proof fn law_lock_is_outside_the_store(store_path: Seq<char>)
    ensures
        !(store_path + "/"@).is_prefix_of(lock_file_of(store_path)),
{
    reveal_strlit("/");
    reveal_strlit(".lock");
    let inside = store_path + "/"@;
    let lock = lock_file_of(store_path);
    if inside.is_prefix_of(lock) {
        let n = store_path.len() as int;
        assert(inside[n] == '/');
        assert(lock[n] == '.');
        assert(lock.subrange(0, inside.len() as int)[n] == '/');
    }
}

/// Different stores have different locks.
pub proof fn law_stores_have_their_own_locks(a: Seq<char>, b: Seq<char>)
    requires
        lock_file_of(a) == lock_file_of(b),
    ensures
        a == b,
{
    assert(lock_file_of(a).len() == a.len() + ".lock"@.len());
    assert(lock_file_of(b).len() == b.len() + ".lock"@.len());
    assert(a =~= lock_file_of(a).take(a.len() as int));
    assert(b =~= lock_file_of(b).take(b.len() as int));
}

} // verus!
