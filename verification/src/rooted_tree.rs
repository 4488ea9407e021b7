//! A directory as git objects: how it is captured, and how it is written out again.

use vstd::prelude::*;
use vstd::utf8::{decode_utf8, encode_utf8, valid_utf8};

use crate::bytes::{bytes_of, copied_bytes, lossy, lossy_text, same_bytes, text_of};
use crate::object::{hex_digits, EntryKind, ObjectId};
use crate::text::{digit, views};

pub mod round_trip;

verus! {

// ----------------------------------------------------------------------------
// Objects
// ----------------------------------------------------------------------------

/// An entry of a tree.
#[derive(Debug)]
pub struct TreeEntry {
    pub kind: EntryKind,
    pub name: Vec<u8>,
    pub id: ObjectId,
}

/// The value of an entry of a tree.
pub struct EntryModel {
    pub kind: EntryKind,
    pub name: Seq<u8>,
    pub id: ObjectId,
}

impl View for TreeEntry {
    type V = EntryModel;

    open spec fn view(&self) -> EntryModel {
        EntryModel { kind: self.kind, name: self.name@, id: self.id }
    }
}

/// The values of entries.
pub open spec fn entry_models(entries: Seq<TreeEntry>) -> Seq<EntryModel> {
    entries.map_values(|e: TreeEntry| e@)
}

impl TreeEntry {
    fn copy(&self) -> (r: TreeEntry)
        ensures
            r@ == self@,
    {
        TreeEntry { kind: self.kind, name: copied_bytes(&self.name), id: self.id }
    }
}

/// An object of git.
#[derive(Debug)]
pub enum Object {
    Blob(Vec<u8>),
    Tree(Vec<TreeEntry>),
}

/// The value of an object.
pub enum ObjectModel {
    Blob(Seq<u8>),
    Tree(Seq<EntryModel>),
}

impl View for Object {
    type V = ObjectModel;

    open spec fn view(&self) -> ObjectModel {
        match self {
            Object::Blob(data) => ObjectModel::Blob(data@),
            Object::Tree(entries) => ObjectModel::Tree(entry_models(entries@)),
        }
    }
}

/// An object under its name.
#[derive(Debug)]
pub struct StoredObject {
    pub id: ObjectId,
    pub object: Object,
}

/// The value of an object under its name.
pub open spec fn stored_model(stored: StoredObject) -> (ObjectId, ObjectModel) {
    (stored.id, stored.object@)
}

/// The values of objects under their names.
pub open spec fn object_models(objects: Seq<StoredObject>) -> Seq<(ObjectId, ObjectModel)> {
    objects.map_values(|o: StoredObject| stored_model(o))
}

/// Where from `i` on the object of this name is, or the number of objects where it is not there.
pub open spec fn position_from(objects: Seq<(ObjectId, ObjectModel)>, id: ObjectId, i: int) -> int
    decreases objects.len() - i,
{
    if i >= objects.len() {
        objects.len() as int
    } else if objects[i].0 == id {
        i
    } else {
        position_from(objects, id, i + 1)
    }
}

/// Where the object of this name is, or the number of objects where it is not there.
pub open spec fn position(objects: Seq<(ObjectId, ObjectModel)>, id: ObjectId) -> int {
    position_from(objects, id, 0)
}

/// The objects with this one put under this name.
pub open spec fn with_object(
    objects: Seq<(ObjectId, ObjectModel)>,
    id: ObjectId,
    object: ObjectModel,
) -> Seq<(ObjectId, ObjectModel)> {
    if position(objects, id) < objects.len() {
        objects.update(position(objects, id), (id, object))
    } else {
        objects.push((id, object))
    }
}

/// The mode of an entry as it is written in a tree.
pub open spec fn mode_text(kind: EntryKind) -> Seq<char> {
    match kind {
        EntryKind::Tree => "40000"@,
        EntryKind::Blob => "100644"@,
        EntryKind::BlobExecutable => "100755"@,
        EntryKind::Link => "120000"@,
        EntryKind::Commit => "160000"@,
    }
}

/// The last `width` bytes of `n`, highest first.
pub open spec fn number_bytes(n: nat, width: nat) -> Seq<u8>
    decreases width,
{
    if width == 0 {
        Seq::empty()
    } else {
        number_bytes(n / 256, (width - 1) as nat).push((n % 256) as u8)
    }
}

/// The twenty bytes of a name.
pub open spec fn id_bytes(id: ObjectId) -> Seq<u8> {
    number_bytes(id.hi as nat, 8) + number_bytes(id.mid as nat, 8) + number_bytes(id.lo as nat, 4)
}

/// An entry as it is written in a tree.
pub open spec fn entry_bytes(entry: EntryModel) -> Seq<u8> {
    encode_utf8(mode_text(entry.kind)) + seq![0x20u8] + entry.name + seq![0u8] + id_bytes(entry.id)
}

/// A tree as it is written: its entries, in their order.
pub open spec fn tree_bytes(entries: Seq<EntryModel>) -> Seq<u8>
    decreases entries.len(),
{
    if entries.len() == 0 {
        Seq::empty()
    } else {
        tree_bytes(entries.drop_last()) + entry_bytes(entries.last())
    }
}

/// The first entry whose name holds a zero byte, which ends a name where a tree is written.
pub open spec fn broken_name(entries: Seq<EntryModel>) -> Option<Seq<u8>>
    decreases entries.len(),
{
    if entries.len() == 0 {
        None
    } else if broken_name(entries.drop_last()) is Some {
        broken_name(entries.drop_last())
    } else if entries.last().name.contains(0u8) {
        Some(entries.last().name)
    } else {
        None
    }
}

fn push_number(out: &mut Vec<u8>, n: u64, width: usize)
    ensures
        final(out)@ == old(out)@ + number_bytes(n as nat, width as nat),
    decreases width,
{
    let ghost before = out@;
    if width > 0 {
        push_number(out, n / 256, width - 1);
        out.push((n % 256) as u8);
    }
    assert(out@ =~= before + number_bytes(n as nat, width as nat));
}

fn push_bytes(out: &mut Vec<u8>, bytes: &Vec<u8>)
    ensures
        final(out)@ == old(out)@ + bytes@,
{
    let ghost before = out@;
    for i in 0..bytes.len()
        invariant
            out@ == before + bytes@.take(i as int),
    {
        out.push(bytes[i]);
        assert(bytes@.take(i + 1) =~= bytes@.take(i as int).push(bytes@[i as int]));
    }
    assert(bytes@.take(bytes@.len() as int) =~= bytes@);
}

fn has_zero(bytes: &Vec<u8>) -> (r: bool)
    ensures
        r == bytes@.contains(0u8),
{
    for i in 0..bytes.len()
        invariant
            forall|k: int| 0 <= k < i ==> bytes@[k] != 0u8,
    {
        if bytes[i] == 0 {
            return true;
        }
    }
    false
}

fn mode_bytes(kind: EntryKind) -> (r: Vec<u8>)
    ensures
        r@ == encode_utf8(mode_text(kind)),
{
    match kind {
        EntryKind::Tree => bytes_of("40000"),
        EntryKind::Blob => bytes_of("100644"),
        EntryKind::BlobExecutable => bytes_of("100755"),
        EntryKind::Link => bytes_of("120000"),
        EntryKind::Commit => bytes_of("160000"),
    }
}

/// Writes a tree, or gives the name that cannot be written.
pub fn write_tree(entries: &Vec<TreeEntry>) -> (r: Result<Vec<u8>, Vec<u8>>)
    ensures
        match r {
            Ok(data) => broken_name(entry_models(entries@)) is None && data@ == tree_bytes(
                entry_models(entries@),
            ),
            Err(name) => broken_name(entry_models(entries@)) == Some(name@),
        },
{
    let mut out: Vec<u8> = Vec::new();
    let ghost models = entry_models(entries@);
    for i in 0..entries.len()
        invariant
            models == entry_models(entries@),
            broken_name(models.take(i as int)) is None,
            out@ == tree_bytes(models.take(i as int)),
    {
        let entry = &entries[i];
        proof {
            let longer = models.take(i + 1);
            assert(longer.drop_last() =~= models.take(i as int));
            assert(longer.last() == entry@);
        }
        if has_zero(&entry.name) {
            proof {
                lemma_broken_name_stays(models, i + 1);
            }
            return Err(copied_bytes(&entry.name));
        }
        let ghost before = out@;
        push_bytes(&mut out, &mode_bytes(entry.kind));
        out.push(0x20);
        push_bytes(&mut out, &entry.name);
        out.push(0);
        push_number(&mut out, entry.id.hi, 8);
        push_number(&mut out, entry.id.mid, 8);
        push_number(&mut out, entry.id.lo as u64, 4);
        assert(out@ =~= before + entry_bytes(entry@));
    }
    assert(models.take(models.len() as int) =~= models);
    Ok(out)
}

proof fn lemma_broken_name_stays(entries: Seq<EntryModel>, i: int)
    requires
        0 <= i <= entries.len(),
        broken_name(entries.take(i)) is Some,
    ensures
        broken_name(entries) == broken_name(entries.take(i)),
    decreases entries.len() - i,
{
    if i < entries.len() {
        assert(entries.take(i + 1).drop_last() =~= entries.take(i));
        lemma_broken_name_stays(entries, i + 1);
    } else {
        assert(entries.take(i) =~= entries);
    }
}

/// The name of an object with this data, or the name that was found to be forged.
pub uninterp spec fn object_hash(tree: bool, data: Seq<u8>) -> Result<ObjectId, ObjectId>;

/// Names an object with `gix::objs::compute_hash` by SHA-1, as a tree or as a blob. The claim is
/// that the name depends on the kind and on the data alone. The only failure is data made to
/// collide; it brings the digest that was found.
#[verifier::external_body]
fn compute_hash(tree: bool, data: &[u8]) -> (r: Result<ObjectId, ObjectId>)
    ensures
        r == object_hash(tree, data@),
{
    let kind = if tree { gix::objs::Kind::Tree } else { gix::objs::Kind::Blob };
    let split = |id: gix::ObjectId| ObjectId {
        hi: u64::from_be_bytes(id.as_slice()[0..8].try_into().unwrap()),
        mid: u64::from_be_bytes(id.as_slice()[8..16].try_into().unwrap()),
        lo: u32::from_be_bytes(id.as_slice()[16..20].try_into().unwrap()),
    };
    match gix::objs::compute_hash(gix::hash::Kind::Sha1, kind, data) {
        Ok(id) => Ok(split(id)),
        Err(gix::hash::hasher::Error::CollisionAttack { digest }) => Err(split(digest)),
    }
}

fn find(objects: &Vec<StoredObject>, id: ObjectId) -> (r: Option<usize>)
    ensures
        match r {
            Some(i) => i < objects@.len() && position(object_models(objects@), id) == i,
            None => position(object_models(objects@), id) == objects@.len(),
        },
{
    let ghost models = object_models(objects@);
    for i in 0..objects.len()
        invariant
            models == object_models(objects@),
            position(models, id) == position_from(models, id, i as int),
    {
        if objects[i].id == id {
            return Some(i);
        }
    }
    None
}

fn put(objects: &mut Vec<StoredObject>, id: ObjectId, object: Object)
    ensures
        object_models(final(objects)@) == with_object(object_models(old(objects)@), id, object@),
{
    let ghost before = objects@;
    match find(objects, id) {
        Some(i) => {
            objects.set(i, StoredObject { id, object });
        },
        None => {
            objects.push(StoredObject { id, object });
        },
    }
    assert(object_models(objects@) =~= with_object(object_models(before), id, object@));
}

// ----------------------------------------------------------------------------
// Capture
// ----------------------------------------------------------------------------

/// A name that was found in a directory, and whether it is to be captured.
#[derive(Debug)]
pub struct SubEntry {
    pub name: Vec<u8>,
    pub included: bool,
}

/// What the walk of a directory comes upon. Each file and directory has the path that it has below
/// the root as its key, and comes after what it contains.
#[derive(Debug)]
pub enum Walked {
    /// The walk failed.
    Failed(String),
    /// Something that is not to be captured.
    Skipped,
    /// A file, with what is to be stored of it, or why that cannot be had.
    File { key: Vec<u8>, name: String, content: Result<Vec<u8>, String> },
    /// A directory, with the names in it; the failure is why there are no more.
    Directory { key: Vec<u8>, name: String, entries: Vec<SubEntry>, failure: Option<String> },
    /// Neither a file nor a directory.
    Other { path: String },
}

/// Why a directory cannot be captured.
#[derive(Debug)]
pub enum CaptureError {
    Read(String),
    MissingEntry(Vec<u8>),
    BrokenName(Vec<u8>),
    Collision(ObjectId),
    Unsupported(String),
    MissingRoot,
}

/// The value of such an error.
pub enum CaptureFault {
    Read(Seq<char>),
    MissingEntry(Seq<u8>),
    BrokenName(Seq<u8>),
    Collision(ObjectId),
    Unsupported(Seq<char>),
    MissingRoot,
}

impl View for CaptureError {
    type V = CaptureFault;

    open spec fn view(&self) -> CaptureFault {
        match self {
            CaptureError::Read(text) => CaptureFault::Read(text@),
            CaptureError::MissingEntry(key) => CaptureFault::MissingEntry(key@),
            CaptureError::BrokenName(name) => CaptureFault::BrokenName(name@),
            CaptureError::Collision(id) => CaptureFault::Collision(*id),
            CaptureError::Unsupported(path) => CaptureFault::Unsupported(path@),
            CaptureError::MissingRoot => CaptureFault::MissingRoot,
        }
    }
}

impl CaptureError {
    /// The text of the error; that of a broken name is left to whoever shows it.
    pub open spec fn text(&self) -> Option<Seq<char>> {
        match self {
            CaptureError::Read(text) => Some(text@),
            CaptureError::MissingEntry(key) => Some("Missing tree entry for "@ + lossy_text(key@)),
            CaptureError::BrokenName(_) => None,
            CaptureError::Collision(id) => Some(
                "Detected SHA-1 collision attack with digest "@ + id.hex_text(),
            ),
            CaptureError::Unsupported(path) => Some("Unsupported file type: "@ + path@),
            CaptureError::MissingRoot => Some("Missing root tree entry"@),
        }
    }

    /// The text of the error; that of a broken name is left to whoever shows it.
    pub fn message(&self) -> (r: Option<String>)
        ensures
            match r {
                Some(text) => self.text() == Some(text@),
                None => self.text() is None,
            },
    {
        match self {
            CaptureError::Read(text) => Some(text.clone()),
            CaptureError::MissingEntry(key) => Some(
                "Missing tree entry for ".to_owned().concat(lossy(key.as_slice()).as_str()),
            ),
            CaptureError::BrokenName(_) => None,
            CaptureError::Collision(id) => Some(
                "Detected SHA-1 collision attack with digest ".to_owned().concat(id.hex().as_str()),
            ),
            CaptureError::Unsupported(path) => Some(
                "Unsupported file type: ".to_owned().concat(path.as_str()),
            ),
            CaptureError::MissingRoot => Some("Missing root tree entry".to_owned()),
        }
    }
}

/// What was captured so far: the entries under their keys, and the objects under their names.
pub struct Captured {
    pub entries: Seq<(Seq<u8>, EntryModel)>,
    pub objects: Seq<(ObjectId, ObjectModel)>,
}

/// The entry that was last put under this key.
pub open spec fn entry_at(entries: Seq<(Seq<u8>, EntryModel)>, key: Seq<u8>) -> Option<EntryModel>
    decreases entries.len(),
{
    if entries.len() == 0 {
        None
    } else if entries.last().0 == key {
        Some(entries.last().1)
    } else {
        entry_at(entries.drop_last(), key)
    }
}

/// The key of what is called `name` in the directory of this key.
pub open spec fn key_in(key: Seq<u8>, name: Seq<u8>) -> Seq<u8> {
    if key.len() == 0 {
        name
    } else {
        key.push(0x2f) + name
    }
}

/// The entries of a directory, or the key for which there is none.
pub open spec fn children_of(
    entries: Seq<(Seq<u8>, EntryModel)>,
    key: Seq<u8>,
    names: Seq<SubEntry>,
) -> Result<Seq<EntryModel>, Seq<u8>>
    decreases names.len(),
{
    if names.len() == 0 {
        Ok(Seq::empty())
    } else {
        match children_of(entries, key, names.drop_last()) {
            Err(missing) => Err(missing),
            Ok(list) => if !names.last().included {
                Ok(list)
            } else {
                match entry_at(entries, key_in(key, names.last().name@)) {
                    Some(entry) => Ok(list.push(entry)),
                    None => Err(key_in(key, names.last().name@)),
                }
            },
        }
    }
}

/// What was captured, with an object put under its name and its entry under its key.
pub open spec fn with_entry(
    state: Captured,
    key: Seq<u8>,
    name: Seq<char>,
    id: ObjectId,
    object: ObjectModel,
) -> Captured {
    let kind = match object {
        ObjectModel::Blob(_) => EntryKind::Blob,
        ObjectModel::Tree(_) => EntryKind::Tree,
    };
    Captured {
        entries: state.entries.push((key, EntryModel { kind, name: encode_utf8(name), id })),
        objects: with_object(state.objects, id, object),
    }
}

/// What comes of an object when it is captured.
pub open spec fn hashed(
    state: Captured,
    key: Seq<u8>,
    name: Seq<char>,
    data: Seq<u8>,
    object: ObjectModel,
) -> Result<Captured, CaptureFault> {
    match object_hash(object is Tree, data) {
        Ok(id) => Ok(with_entry(state, key, name, id, object)),
        Err(digest) => Err(CaptureFault::Collision(digest)),
    }
}

/// What is captured when the walk comes upon this.
pub open spec fn after(state: Captured, walked: Walked) -> Result<Captured, CaptureFault> {
    match walked {
        Walked::Failed(text) => Err(CaptureFault::Read(text@)),
        Walked::Skipped => Ok(state),
        Walked::File { key, name, content } => match content {
            Ok(data) => hashed(state, key@, name@, data@, ObjectModel::Blob(data@)),
            Err(text) => Err(CaptureFault::Read(text@)),
        },
        Walked::Directory { key, name, entries, failure } => match children_of(
            state.entries,
            key@,
            entries@,
        ) {
            Err(missing) => Err(CaptureFault::MissingEntry(missing)),
            Ok(list) => if failure is Some {
                Err(CaptureFault::Read(failure->0@))
            } else if broken_name(list) is Some {
                Err(CaptureFault::BrokenName(broken_name(list)->0))
            } else {
                hashed(state, key@, name@, tree_bytes(list), ObjectModel::Tree(list))
            },
        },
        Walked::Other { path } => Err(CaptureFault::Unsupported(path@)),
    }
}

/// What is captured by a walk that comes upon all this in turn; the first failure ends it.
pub open spec fn captured(walked: Seq<Walked>) -> Result<Captured, CaptureFault>
    decreases walked.len(),
{
    if walked.len() == 0 {
        Ok(Captured { entries: Seq::empty(), objects: Seq::empty() })
    } else {
        match captured(walked.drop_last()) {
            Ok(state) => after(state, walked.last()),
            Err(fault) => Err(fault),
        }
    }
}

pub(crate) proof fn lemma_failure_stays(walked: Seq<Walked>, i: int)
    requires
        0 <= i <= walked.len(),
        captured(walked.take(i)) is Err,
    ensures
        captured(walked) == captured(walked.take(i)),
    decreases walked.len() - i,
{
    if i < walked.len() {
        assert(walked.take(i + 1).drop_last() =~= walked.take(i));
        lemma_failure_stays(walked, i + 1);
    } else {
        assert(walked.take(i) =~= walked);
    }
}

struct KeyedEntry {
    key: Vec<u8>,
    entry: TreeEntry,
}

spec fn keyed_models(entries: Seq<KeyedEntry>) -> Seq<(Seq<u8>, EntryModel)> {
    entries.map_values(|e: KeyedEntry| (e.key@, e.entry@))
}

/// What was captured so far.
struct Capture {
    entries: Vec<KeyedEntry>,
    objects: Vec<StoredObject>,
}

impl View for Capture {
    type V = Captured;

    closed spec fn view(&self) -> Captured {
        Captured {
            entries: keyed_models(self.entries@),
            objects: object_models(self.objects@),
        }
    }
}

fn find_entry(entries: &Vec<KeyedEntry>, key: &Vec<u8>) -> (r: Option<TreeEntry>)
    ensures
        match r {
            Some(entry) => entry_at(keyed_models(entries@), key@) == Some(entry@),
            None => entry_at(keyed_models(entries@), key@) is None,
        },
{
    let ghost models = keyed_models(entries@);
    let mut i: usize = entries.len();
    assert(models.take(i as int) =~= models);
    while i > 0
        invariant
            i <= entries@.len(),
            models == keyed_models(entries@),
            entry_at(models, key@) == entry_at(models.take(i as int), key@),
        decreases i,
    {
        let ghost shorter = models.take(i as int);
        i = i - 1;
        assert(shorter.drop_last() =~= models.take(i as int));
        if same_bytes(&entries[i].key, key) {
            return Some(entries[i].entry.copy());
        }
    }
    None
}

fn join_key(key: &Vec<u8>, name: &Vec<u8>) -> (r: Vec<u8>)
    ensures
        r@ == key_in(key@, name@),
{
    let mut out = copied_bytes(key);
    if key.len() > 0 {
        out.push(0x2f);
    }
    push_bytes(&mut out, name);
    assert(out@ =~= key_in(key@, name@));
    out
}

proof fn lemma_missing_stays(
    entries: Seq<(Seq<u8>, EntryModel)>,
    key: Seq<u8>,
    names: Seq<SubEntry>,
    i: int,
)
    requires
        0 <= i <= names.len(),
        children_of(entries, key, names.take(i)) is Err,
    ensures
        children_of(entries, key, names) == children_of(entries, key, names.take(i)),
    decreases names.len() - i,
{
    if i < names.len() {
        assert(names.take(i + 1).drop_last() =~= names.take(i));
        lemma_missing_stays(entries, key, names, i + 1);
    } else {
        assert(names.take(i) =~= names);
    }
}

fn find_children(entries: &Vec<KeyedEntry>, key: &Vec<u8>, names: &Vec<SubEntry>) -> (r: Result<
    Vec<TreeEntry>,
    Vec<u8>,
>)
    ensures
        match r {
            Ok(list) => children_of(keyed_models(entries@), key@, names@) == Ok::<
                Seq<EntryModel>,
                Seq<u8>,
            >(entry_models(list@)),
            Err(missing) => children_of(keyed_models(entries@), key@, names@) == Err::<
                Seq<EntryModel>,
                Seq<u8>,
            >(missing@),
        },
{
    let ghost models = keyed_models(entries@);
    let mut list: Vec<TreeEntry> = Vec::new();
    assert(entry_models(list@) =~= Seq::empty());
    for i in 0..names.len()
        invariant
            models == keyed_models(entries@),
            children_of(models, key@, names@.take(i as int)) == Ok::<Seq<EntryModel>, Seq<u8>>(
                entry_models(list@),
            ),
    {
        proof {
            assert(names@.take(i + 1).drop_last() =~= names@.take(i as int));
            assert(names@.take(i + 1).last() == names@[i as int]);
        }
        if names[i].included {
            let subkey = join_key(key, &names[i].name);
            match find_entry(entries, &subkey) {
                Some(entry) => {
                    let ghost before = list@;
                    list.push(entry);
                    assert(entry_models(list@) =~= entry_models(before).push(entry@));
                },
                None => {
                    proof {
                        lemma_missing_stays(models, key@, names@, i + 1);
                    }
                    return Err(subkey);
                },
            }
        }
    }
    assert(names@.take(names@.len() as int) =~= names@);
    Ok(list)
}

impl Capture {
    fn add_object(
        &mut self,
        key: &Vec<u8>,
        name: &String,
        data: &Vec<u8>,
        object: Object,
    ) -> (r: Result<(), CaptureError>)
        ensures
            match hashed(old(self)@, key@, name@, data@, object@) {
                Ok(state) => r is Ok && final(self)@ == state,
                Err(fault) => r is Err && r->Err_0@ == fault,
            },
    {
        let tree = match &object {
            Object::Tree(_) => true,
            Object::Blob(_) => false,
        };
        match compute_hash(tree, data.as_slice()) {
            Ok(id) => {
                let ghost before = self.entries@;
                let kind = if tree {
                    EntryKind::Tree
                } else {
                    EntryKind::Blob
                };
                let entry = TreeEntry { kind, name: bytes_of(name.as_str()), id };
                self.entries.push(KeyedEntry { key: copied_bytes(key), entry });
                put(&mut self.objects, id, object);
                assert(keyed_models(self.entries@) =~= keyed_models(before).push((key@, entry@)));
                Ok(())
            },
            Err(digest) => Err(CaptureError::Collision(digest)),
        }
    }

    fn add(&mut self, walked: &Walked) -> (r: Result<(), CaptureError>)
        ensures
            match after(old(self)@, *walked) {
                Ok(state) => r is Ok && final(self)@ == state,
                Err(fault) => r is Err && r->Err_0@ == fault,
            },
    {
        match walked {
            Walked::Failed(text) => Err(CaptureError::Read(text.clone())),
            Walked::Skipped => Ok(()),
            Walked::File { key, name, content } => match content {
                Ok(data) => self.add_object(key, name, data, Object::Blob(copied_bytes(data))),
                Err(text) => Err(CaptureError::Read(text.clone())),
            },
            Walked::Directory { key, name, entries, failure } => match find_children(
                &self.entries,
                key,
                entries,
            ) {
                Err(missing) => Err(CaptureError::MissingEntry(missing)),
                Ok(list) => {
                    if let Some(text) = failure {
                        return Err(CaptureError::Read(text.clone()));
                    }
                    match write_tree(&list) {
                        Err(name) => Err(CaptureError::BrokenName(name)),
                        Ok(data) => self.add_object(key, name, &data, Object::Tree(list)),
                    }
                },
            },
            Walked::Other { path } => Err(CaptureError::Unsupported(path.clone())),
        }
    }
}

/// A directory as git objects.
#[derive(Debug)]
pub struct RootedTree {
    pub root: String,
    pub tree_id: ObjectId,
    pub objects: Vec<StoredObject>,
}

/// What comes of the capture of a directory: the name of its tree, and the objects.
pub open spec fn tree_captured(walked: Seq<Walked>) -> Result<
    (ObjectId, Seq<(ObjectId, ObjectModel)>),
    CaptureFault,
> {
    match captured(walked) {
        Err(fault) => Err(fault),
        Ok(state) => match entry_at(state.entries, Seq::empty()) {
            None => Err(CaptureFault::MissingRoot),
            Some(entry) => Ok((entry.id, state.objects)),
        },
    }
}

impl RootedTree {
    /// Captures a directory from what its walk comes upon.
    pub fn capture(root: String, walked: &Vec<Walked>) -> (r: Result<RootedTree, CaptureError>)
        ensures
            match tree_captured(walked@) {
                Ok((id, objects)) => r is Ok && r->Ok_0.root@ == root@ && r->Ok_0.tree_id == id
                    && object_models(r->Ok_0.objects@) == objects,
                Err(fault) => r is Err && r->Err_0@ == fault,
            },
    {
        let mut state = Capture { entries: Vec::new(), objects: Vec::new() };
        proof {
            assert(keyed_models(state.entries@) =~= Seq::empty());
            assert(object_models(state.objects@) =~= Seq::empty());
        }
        for i in 0..walked.len()
            invariant
                captured(walked@.take(i as int)) == Ok::<Captured, CaptureFault>(state@),
        {
            proof {
                assert(walked@.take(i + 1).drop_last() =~= walked@.take(i as int));
                assert(walked@.take(i + 1).last() == walked@[i as int]);
            }
            if let Err(error) = state.add(&walked[i]) {
                proof {
                    lemma_failure_stays(walked@, i + 1);
                }
                return Err(error);
            }
        }
        assert(walked@.take(walked@.len() as int) =~= walked@);
        let key: Vec<u8> = Vec::new();
        assert(key@ =~= Seq::empty());
        match find_entry(&state.entries, &key) {
            None => Err(CaptureError::MissingRoot),
            Some(entry) => Ok(RootedTree { root, tree_id: entry.id, objects: state.objects }),
        }
    }
}

// ----------------------------------------------------------------------------
// Apply
// ----------------------------------------------------------------------------

/// What is to be done to write a tree out. Paths are the names to go through from the root on.
#[derive(Debug)]
pub enum WriteAction {
    Directory { path: Vec<String> },
    File { path: Vec<String>, content: Vec<u8> },
}

/// The value of such an action.
pub enum ActionModel {
    Directory(Seq<Seq<char>>),
    File(Seq<Seq<char>>, Seq<u8>),
}

impl View for WriteAction {
    type V = ActionModel;

    open spec fn view(&self) -> ActionModel {
        match self {
            WriteAction::Directory { path } => ActionModel::Directory(views(path@)),
            WriteAction::File { path, content } => ActionModel::File(views(path@), content@),
        }
    }
}

/// The values of actions.
pub open spec fn action_models(actions: Seq<WriteAction>) -> Seq<ActionModel> {
    actions.map_values(|a: WriteAction| a@)
}

/// Why a tree cannot be written out further.
#[derive(Debug)]
pub enum WriteOutError {
    /// There is no object of this name.
    MissingObject { id: ObjectId, path: Vec<String> },
    /// The tree of this name is somewhere within itself.
    Cycle { id: ObjectId, path: Vec<String> },
    /// The name of an entry is no text.
    Name(Vec<u8>),
}

/// The value of such an error.
pub enum WriteOutFault {
    MissingObject(ObjectId, Seq<Seq<char>>),
    Cycle(ObjectId, Seq<Seq<char>>),
    Name(Seq<u8>),
}

impl View for WriteOutError {
    type V = WriteOutFault;

    open spec fn view(&self) -> WriteOutFault {
        match self {
            WriteOutError::MissingObject { id, path } => WriteOutFault::MissingObject(
                *id,
                views(path@),
            ),
            WriteOutError::Cycle { id, path } => WriteOutFault::Cycle(*id, views(path@)),
            WriteOutError::Name(name) => WriteOutFault::Name(name@),
        }
    }
}

/// What is said of an object that is missing, where `path` is where it belongs.
pub fn missing_object_message(id: ObjectId, path: &str) -> (r: String)
    ensures
        r@ == "Missing object for OID "@ + id.hex_text() + " at path "@ + path@,
{
    "Missing object for OID ".to_owned().concat(id.hex().as_str()).concat(" at path ").concat(path)
}

/// What is said of an object that is within itself, where `path` is where it comes again.
pub fn cycle_message(id: ObjectId, path: &str) -> (r: String)
    ensures
        r@ == "Tree for OID "@ + id.hex_text() + " contains itself at path "@ + path@,
{
    "Tree for OID ".to_owned().concat(id.hex().as_str()).concat(" contains itself at path ").concat(
        path,
    )
}

/// What is to be done, in order, and the error that comes after it, if any.
pub struct PlanModel {
    pub actions: Seq<ActionModel>,
    pub fault: Option<WriteOutFault>,
}

/// The first entry whose name is no text.
pub open spec fn bad_name(entries: Seq<EntryModel>) -> Option<Seq<u8>>
    decreases entries.len(),
{
    if entries.len() == 0 {
        None
    } else if bad_name(entries.drop_last()) is Some {
        bad_name(entries.drop_last())
    } else if valid_utf8(entries.last().name) {
        None
    } else {
        Some(entries.last().name)
    }
}

/// What is to be done to write the object of this name to `path`, where objects lie within each
/// other to this depth at most.
pub open spec fn plan_at(
    path: Seq<Seq<char>>,
    id: ObjectId,
    objects: Seq<(ObjectId, ObjectModel)>,
    depth: nat,
) -> PlanModel
    decreases depth, 0nat,
{
    let i = position(objects, id);
    if i < 0 || i >= objects.len() {
        PlanModel { actions: Seq::empty(), fault: Some(WriteOutFault::MissingObject(id, path)) }
    } else if depth == 0 {
        PlanModel { actions: Seq::empty(), fault: Some(WriteOutFault::Cycle(id, path)) }
    } else {
        match objects[i].1 {
            ObjectModel::Blob(data) => PlanModel {
                actions: seq![ActionModel::File(path, data)],
                fault: None,
            },
            ObjectModel::Tree(entries) => match bad_name(entries) {
                Some(name) => PlanModel {
                    actions: seq![ActionModel::Directory(path)],
                    fault: Some(WriteOutFault::Name(name)),
                },
                None => {
                    let below = plan_list(path, entries, objects, (depth - 1) as nat);
                    PlanModel {
                        actions: seq![ActionModel::Directory(path)] + below.actions,
                        fault: below.fault,
                    }
                },
            },
        }
    }
}

/// What is to be done to write these entries of the tree at `path`, the last of them first.
pub open spec fn plan_list(
    path: Seq<Seq<char>>,
    entries: Seq<EntryModel>,
    objects: Seq<(ObjectId, ObjectModel)>,
    depth: nat,
) -> PlanModel
    decreases depth, entries.len(),
{
    if entries.len() == 0 {
        PlanModel { actions: Seq::empty(), fault: None }
    } else {
        let entry = entries.last();
        let first = plan_at(path.push(decode_utf8(entry.name)), entry.id, objects, depth);
        if first.fault is Some {
            first
        } else {
            let rest = plan_list(path, entries.drop_last(), objects, depth);
            PlanModel { actions: first.actions + rest.actions, fault: rest.fault }
        }
    }
}

/// What is to be done to write out the tree of this name. Where objects lie within each other
/// deeper than there are objects, one of them lies within itself.
pub open spec fn tree_plan(id: ObjectId, objects: Seq<(ObjectId, ObjectModel)>) -> PlanModel {
    plan_at(Seq::empty(), id, objects, objects.len())
}

proof fn lemma_bad_name_stays(entries: Seq<EntryModel>, i: int)
    requires
        0 <= i <= entries.len(),
        bad_name(entries.take(i)) is Some,
    ensures
        bad_name(entries) == bad_name(entries.take(i)),
    decreases entries.len() - i,
{
    if i < entries.len() {
        assert(entries.take(i + 1).drop_last() =~= entries.take(i));
        lemma_bad_name_stays(entries, i + 1);
    } else {
        assert(entries.take(i) =~= entries);
    }
}

/// The names of entries as text, or the first that is none.
fn read_names(entries: &Vec<TreeEntry>) -> (r: Result<Vec<String>, Vec<u8>>)
    ensures
        match r {
            Ok(names) => {
                &&& bad_name(entry_models(entries@)) is None
                &&& names@.len() == entries@.len()
                &&& forall|i: int|
                    0 <= i < names@.len() ==> (#[trigger] names@[i])@ == decode_utf8(
                        entries@[i].name@,
                    )
            },
            Err(name) => bad_name(entry_models(entries@)) == Some(name@),
        },
{
    let ghost models = entry_models(entries@);
    let mut names: Vec<String> = Vec::new();
    for i in 0..entries.len()
        invariant
            models == entry_models(entries@),
            bad_name(models.take(i as int)) is None,
            names@.len() == i,
            forall|k: int|
                0 <= k < i ==> (#[trigger] names@[k])@ == decode_utf8(entries@[k].name@),
    {
        proof {
            assert(models.take(i + 1).drop_last() =~= models.take(i as int));
            assert(models.take(i + 1).last() == entries@[i as int]@);
        }
        match text_of(entries[i].name.as_slice()) {
            Some(name) => {
                names.push(name);
            },
            None => {
                proof {
                    lemma_bad_name_stays(models, i + 1);
                }
                return Err(copied_bytes(&entries[i].name));
            },
        }
    }
    assert(models.take(models.len() as int) =~= models);
    Ok(names)
}

/// Adds what is to be done to write the object of this name to `path`.
fn write_at(
    actions: &mut Vec<WriteAction>,
    path: &Vec<String>,
    id: ObjectId,
    objects: &Vec<StoredObject>,
    depth: usize,
) -> (r: Option<WriteOutError>)
    ensures
        ({
            let plan = plan_at(views(path@), id, object_models(objects@), depth as nat);
            &&& action_models(final(actions)@) == action_models(old(actions)@) + plan.actions
            &&& match r {
                Some(error) => plan.fault == Some(error@),
                None => plan.fault is None,
            }
        }),
    decreases depth, 0nat,
{
    let ghost before = actions@;
    let ghost models = object_models(objects@);
    let ghost plan = plan_at(views(path@), id, models, depth as nat);
    let i: usize = match find(objects, id) {
        Some(i) => i,
        None => {
            assert(action_models(actions@) =~= action_models(before) + plan.actions);
            return Some(WriteOutError::MissingObject { id, path: crate::text::copied(path) });
        },
    };
    if depth == 0 {
        assert(action_models(actions@) =~= action_models(before) + plan.actions);
        return Some(WriteOutError::Cycle { id, path: crate::text::copied(path) });
    }
    assert(models[i as int].1 == objects@[i as int].object@);
    match &objects[i].object {
        Object::Blob(content) => {
            actions.push(
                WriteAction::File {
                    path: crate::text::copied(path),
                    content: copied_bytes(content),
                },
            );
            assert(action_models(actions@) =~= action_models(before) + plan.actions);
            None
        },
        Object::Tree(entries) => {
            actions.push(WriteAction::Directory { path: crate::text::copied(path) });
            let ghost opened = actions@;
            assert(action_models(opened) =~= action_models(before).push(
                ActionModel::Directory(views(path@)),
            ));
            match read_names(entries) {
                Err(name) => {
                    assert(action_models(actions@) =~= action_models(before) + plan.actions);
                    Some(WriteOutError::Name(name))
                },
                Ok(names) => {
                    let r = write_list(actions, path, entries, &names, objects, depth - 1);
                    assert(action_models(actions@) =~= action_models(before) + plan.actions);
                    r
                },
            }
        },
    }
}

/// Adds what is to be done to write the entries of the tree at `path`, which have these names.
fn write_list(
    actions: &mut Vec<WriteAction>,
    path: &Vec<String>,
    entries: &Vec<TreeEntry>,
    names: &Vec<String>,
    objects: &Vec<StoredObject>,
    depth: usize,
) -> (r: Option<WriteOutError>)
    requires
        names@.len() == entries@.len(),
        forall|i: int|
            0 <= i < names@.len() ==> (#[trigger] names@[i])@ == decode_utf8(entries@[i].name@),
    ensures
        ({
            let plan = plan_list(
                views(path@),
                entry_models(entries@),
                object_models(objects@),
                depth as nat,
            );
            &&& action_models(final(actions)@) == action_models(old(actions)@) + plan.actions
            &&& match r {
                Some(error) => plan.fault == Some(error@),
                None => plan.fault is None,
            }
        }),
    decreases depth, 1nat,
{
    let ghost before = action_models(actions@);
    let ghost models = object_models(objects@);
    let ghost listed = entry_models(entries@);
    let ghost all = plan_list(views(path@), listed, models, depth as nat);
    let mut i: usize = entries.len();
    proof {
        assert(listed.take(i as int) =~= listed);
    }
    while i > 0
        invariant
            i <= entries@.len(),
            names@.len() == entries@.len(),
            forall|k: int|
                0 <= k < names@.len() ==> (#[trigger] names@[k])@ == decode_utf8(entries@[k].name@),
            models == object_models(objects@),
            listed == entry_models(entries@),
            before == action_models(old(actions)@),
            all == plan_list(views(path@), listed, models, depth as nat),
            action_models(actions@) + plan_list(
                views(path@),
                listed.take(i as int),
                models,
                depth as nat,
            ).actions == before + all.actions,
            plan_list(views(path@), listed.take(i as int), models, depth as nat).fault
                == all.fault,
        decreases i,
    {
        let ghost done = action_models(actions@);
        let ghost shorter = listed.take(i as int);
        i = i - 1;
        let mut below = crate::text::copied(path);
        let ghost copy = below@;
        below.push(names[i].clone());
        proof {
            assert(shorter.drop_last() =~= listed.take(i as int));
            assert(shorter.last() == entries@[i as int]@);
            assert(views(below@) =~= views(copy).push(names@[i as int]@));
        }
        let ghost first = plan_at(views(below@), entries@[i as int].id, models, depth as nat);
        let ghost rest = plan_list(views(path@), listed.take(i as int), models, depth as nat);
        let r = write_at(actions, &below, entries[i].id, objects, depth);
        if r.is_some() {
            assert(plan_list(views(path@), shorter, models, depth as nat) == first);
            return r;
        }
        assert(done + (first.actions + rest.actions) =~= action_models(actions@) + rest.actions);
    }
    assert(action_models(actions@) =~= before + all.actions);
    None
}

impl RootedTree {
    /// Says what is to be done to write the tree out under its root, creating files and
    /// directories as needed, and the error that comes after it, if any.
    pub fn apply(self) -> (r: (Vec<WriteAction>, Option<WriteOutError>))
        ensures
            action_models(r.0@) == tree_plan(self.tree_id, object_models(self.objects@)).actions,
            match r.1 {
                Some(error) => tree_plan(self.tree_id, object_models(self.objects@)).fault == Some(
                    error@,
                ),
                None => tree_plan(self.tree_id, object_models(self.objects@)).fault is None,
            },
    {
        let mut actions: Vec<WriteAction> = Vec::new();
        let path: Vec<String> = Vec::new();
        let ghost plan = tree_plan(self.tree_id, object_models(self.objects@));
        proof {
            assert(views(path@) =~= Seq::<Seq<char>>::empty());
            assert(object_models(self.objects@).len() == self.objects@.len());
            assert(action_models(actions@) + plan.actions =~= plan.actions);
        }
        let error = write_at(&mut actions, &path, self.tree_id, &self.objects, self.objects.len());
        (actions, error)
    }
}

// ----------------------------------------------------------------------------
// Laws
// ----------------------------------------------------------------------------

/// The number that a text of octal digits is read as.
pub open spec fn read_octal(text: Seq<char>) -> nat
    decreases text.len(),
{
    if text.len() == 0 {
        0
    } else {
        (read_octal(text.drop_last()) * 8 + (text.last() as int - '0' as int)) as nat
    }
}

/// The mode of an entry is the one that git gives to such entries.
pub proof fn law_modes_are_those_of_git(kind: EntryKind)
    ensures
        read_octal(mode_text(kind)) == match kind {
            EntryKind::Tree => 0o040000nat,
            EntryKind::Blob => 0o100644nat,
            EntryKind::BlobExecutable => 0o100755nat,
            EntryKind::Link => 0o120000nat,
            EntryKind::Commit => 0o160000nat,
        },
{
    reveal_with_fuel(read_octal, 7);
    reveal_strlit("40000");
    reveal_strlit("100644");
    reveal_strlit("100755");
    reveal_strlit("120000");
    reveal_strlit("160000");
    let text = mode_text(kind);
    assert(text.drop_last().last() == text[text.len() - 2]);
    assert(text.drop_last().drop_last().last() == text[text.len() - 3]);
    assert(text.drop_last().drop_last().drop_last().last() == text[text.len() - 4]);
    assert(text.drop_last().drop_last().drop_last().drop_last().last() == text[text.len() - 5]);
    if text.len() == 6 {
        assert(text.drop_last().drop_last().drop_last().drop_last().drop_last().last() == text[0]);
    }
}

proof fn lemma_bytes_are_hex(n: nat, width: nat, k: int)
    requires
        0 <= k < width,
    ensures
        number_bytes(n, width).len() == width,
        hex_digits(n, 2 * width).len() == 2 * width,
        hex_digits(n, 2 * width)[2 * k] == digit((number_bytes(n, width)[k] / 16) as nat),
        hex_digits(n, 2 * width)[2 * k + 1] == digit((number_bytes(n, width)[k] % 16) as nat),
    decreases width,
{
    let less = (width - 1) as nat;
    let byte = (n % 256) as u8;
    assert(n / 16 / 16 == n / 256);
    assert((n / 16) % 16 == (n % 256) / 16) by (nonlinear_arith);
    assert(n % 16 == (n % 256) % 16);
    assert(2 * width - 2 == 2 * less);
    assert(hex_digits(n, 2 * width) == hex_digits(n / 16, (2 * width - 1) as nat).push(
        digit(n % 16),
    ));
    assert(hex_digits(n / 16, (2 * width - 1) as nat) == hex_digits(n / 16 / 16, 2 * less).push(
        digit((n / 16) % 16),
    ));
    assert(number_bytes(n, width) == number_bytes(n / 256, less).push(byte));
    if less > 0 {
        lemma_bytes_are_hex(n / 256, less, if k < less { k } else { 0 });
    } else {
        assert(hex_digits(n / 256, 0) =~= Seq::empty());
        assert(number_bytes(n / 256, 0) =~= Seq::empty());
    }
}

/// The bytes of a name are what its hexadecimal digits are, two for each byte.
pub proof fn law_name_bytes_are_the_hex_digits(id: ObjectId, k: int)
    requires
        0 <= k < 20,
    ensures
        id_bytes(id).len() == 20,
        id.hex_text()[2 * k] == digit((id_bytes(id)[k] / 16) as nat),
        id.hex_text()[2 * k + 1] == digit((id_bytes(id)[k] % 16) as nat),
{
    lemma_bytes_are_hex(id.hi as nat, 8, if k < 8 { k } else { 0 });
    lemma_bytes_are_hex(id.mid as nat, 8, if 8 <= k < 16 { k - 8 } else { 0 });
    lemma_bytes_are_hex(id.lo as nat, 4, if 16 <= k { k - 16 } else { 0 });
}

/// A tree is written as its entries one after the other, each as its mode, a space, its name, a
/// zero byte and the bytes of its object's name.
pub proof fn law_trees_are_written_entry_by_entry(
    a: Seq<EntryModel>,
    b: Seq<EntryModel>,
    entry: EntryModel,
)
    ensures
        tree_bytes(a + b) == tree_bytes(a) + tree_bytes(b),
        tree_bytes(Seq::empty()) == Seq::<u8>::empty(),
        tree_bytes(seq![entry]) == encode_utf8(mode_text(entry.kind)) + seq![0x20u8] + entry.name
            + seq![0u8] + id_bytes(entry.id),
    decreases b.len(),
{
    reveal_with_fuel(tree_bytes, 2);
    assert(seq![entry].drop_last() =~= Seq::empty());
    assert(tree_bytes(seq![entry]) =~= entry_bytes(entry));
    if b.len() == 0 {
        assert(a + b =~= a);
        assert(tree_bytes(a) + tree_bytes(b) =~= tree_bytes(a));
    } else {
        law_trees_are_written_entry_by_entry(a, b.drop_last(), entry);
        assert((a + b).drop_last() =~= a + b.drop_last());
        assert((a + b).last() == b.last());
        assert(tree_bytes(a + b) =~= tree_bytes(a) + tree_bytes(b));
    }
}

/// A tree cannot be written exactly where the name of an entry holds a zero byte, and the first
/// such name is the one that is told.
pub proof fn law_zero_bytes_break_names(entries: Seq<EntryModel>, i: int)
    requires
        0 <= i < entries.len(),
        entries[i].name.contains(0u8),
        forall|k: int| 0 <= k < i ==> !(#[trigger] entries[k]).name.contains(0u8),
    ensures
        broken_name(entries) == Some(entries[i].name),
        broken_name(entries.take(i)) is None,
    decreases entries.len(),
{
    if i < entries.len() - 1 {
        law_zero_bytes_break_names(entries.drop_last(), i);
        assert(entries.drop_last().take(i) =~= entries.take(i));
    } else {
        assert(entries.take(i) =~= entries.drop_last());
        lemma_unbroken(entries.drop_last());
    }
}

proof fn lemma_unbroken(entries: Seq<EntryModel>)
    requires
        forall|k: int| 0 <= k < entries.len() ==> !(#[trigger] entries[k]).name.contains(0u8),
    ensures
        broken_name(entries) is None,
    decreases entries.len(),
{
    if entries.len() > 0 {
        lemma_unbroken(entries.drop_last());
    }
}

/// What is in a directory has the path of the directory, a slash and its name as its key.
pub proof fn law_keys_are_paths(key: Seq<u8>, name: Seq<u8>)
    ensures
        key_in(Seq::empty(), name) == name,
        key.len() > 0 ==> key_in(key, name) == key + seq![0x2fu8] + name,
{
    assert(key.push(0x2f) + name =~= key + seq![0x2fu8] + name);
}

} // verus!
