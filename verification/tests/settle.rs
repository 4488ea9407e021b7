use std::collections::BTreeMap;

use porchetta::engine::diff::{collect_apply_operations, ApplyOperation, DiffChange};
use porchetta::engine::status::{plan_topic, Reconciled, SyncTopicStatus};
use porchetta::engine::sync::{Sync, SyncAction, SyncEvent, TopicEntry};
use porchetta::manifest::{captured_content, Manifest, Topic};
use porchetta::object::{EntryKind, ObjectId};

type Tree = BTreeMap<String, Vec<u8>>;

fn load(content: &str) -> Manifest {
    Manifest::load(mlua::Lua::new(), content.as_bytes()).unwrap()
}

fn capture(topic: &Topic, files: &Tree) -> Tree {
    files
        .iter()
        .map(|(path, content)| (path.clone(), captured_content(topic, path, content).unwrap()))
        .collect()
}

fn tree(list: &[(&str, &str)]) -> Tree {
    list.iter().map(|(path, text)| ((*path).to_owned(), text.as_bytes().to_vec())).collect()
}

/// The name of the content at a place of a list.
fn id(n: usize) -> ObjectId {
    ObjectId { hi: n as u64, mid: 0, lo: 0 }
}

fn changes(ours: &Tree, merged: &Tree, blobs: &mut Vec<Vec<u8>>) -> Vec<DiffChange> {
    let mut list = Vec::new();
    for (path, content) in merged {
        let location = path.clone().into_bytes();
        let kind = EntryKind::Blob;
        if ours.get(path) == Some(content) {
            continue;
        }
        let id = id(blobs.len());
        blobs.push(content.clone());
        list.push(if ours.contains_key(path) {
            DiffChange::Modification { location, kind, id }
        } else {
            DiffChange::Addition { location, kind, id }
        });
    }
    for path in ours.keys().filter(|path| !merged.contains_key(*path)) {
        list.push(DiffChange::Deletion {
            location: path.clone().into_bytes(),
            kind: EntryKind::Blob,
        });
    }
    list
}

fn apply(topic: &Topic, files: &mut Tree, ours: &Tree, merged: &Tree) {
    let mut blobs = Vec::new();
    for operation in collect_apply_operations(&changes(ours, merged, &mut blobs)).unwrap() {
        match operation {
            ApplyOperation::Upsert { relative_path, blob_oid } => {
                let content = &blobs[blob_oid.hi as usize];
                let written = topic.to_system(&relative_path, content).unwrap();
                files.insert(relative_path, written);
            }
            ApplyOperation::Delete { relative_path } => {
                files.remove(&relative_path);
            }
        }
    }
}

#[test]
fn applied_files_are_captured_as_the_merged_tree() {
    let manifest = load(
        "return { topics = { t = {
            paths = { '.' },
            to_repo = function(p, c) return (c:gsub('/home/me', '@home@')) end,
            to_system = function(p, c) return (c:gsub('@home@', '/home/me')) end,
        } } }",
    );
    let topic = &manifest.topics[0];
    let mut files = tree(&[("a", "at /home/me\r\n"), ("b", "old"), ("c", "gone")]);
    let ours = capture(topic, &files);
    assert_eq!(ours, tree(&[("a", "at @home@\n"), ("b", "old"), ("c", "gone")]));
    let merged = tree(&[("a", "at @home@\n"), ("b", "new @home@"), ("d", "more")]);
    apply(topic, &mut files, &ours, &merged);
    let expected = [("a", "at /home/me\r\n"), ("b", "new /home/me"), ("d", "more")];
    assert_eq!(files, tree(&expected));
    assert_eq!(capture(topic, &files), merged);

    let plan = plan_topic(false, Reconciled::Head(id(9)), id(1), id(1), id(1));
    assert_eq!(plan.status, SyncTopicStatus::Unchanged);
    assert!(!plan.commit && !plan.apply);
}

#[test]
fn topics_without_hooks_are_captured_as_they_were_applied() {
    let manifest = load("return { topics = { t = { paths = { '.' } } } }");
    let topic = &manifest.topics[0];
    let mut files = tree(&[("a", "x\r\n")]);
    let ours = capture(topic, &files);
    let merged = tree(&[("a", "y\n"), ("b", "z")]);
    apply(topic, &mut files, &ours, &merged);
    assert_eq!(files, merged);
    assert_eq!(capture(topic, &files), merged);
}

const MANIFEST: &str = "return { topics = {
    hooked = {
        paths = { '.' },
        to_repo = function(p, c) return (c:gsub('me', '@')) end,
        to_system = function(p, c) return (c:gsub('@', 'me')) end,
    },
    off = { paths = { '.' }, enabled = false },
    plain = { paths = { '.' } },
} }";

/// A store without remotes, and the files of each topic. A head is the position of its tree.
#[derive(Clone, Debug, PartialEq)]
struct Host {
    commits: Vec<Tree>,
    heads: BTreeMap<String, usize>,
    bases: BTreeMap<String, usize>,
    files: BTreeMap<String, Tree>,
}

impl Host {
    /// The merge of trees that do not conflict.
    fn merge(base: &Tree, ours: &Tree, theirs: &Tree) -> Tree {
        let mut merged = Tree::new();
        for path in base.keys().chain(ours.keys()).chain(theirs.keys()) {
            let (b, o, t) = (base.get(path), ours.get(path), theirs.get(path));
            if let Some(content) = if o == b { t } else { o } {
                merged.insert(path.clone(), content.clone());
            }
        }
        merged
    }

    fn sync_topic(&mut self, topic: &Topic, state: Reconciled) -> SyncTopicStatus {
        let name = topic.name.clone();
        let empty = Tree::new();
        let theirs = match state {
            Reconciled::Head(head) => self.commits[head.hi as usize].clone(),
            _ => empty.clone(),
        };
        let base = self.bases.get(&name).map_or(empty, |head| self.commits[*head].clone());
        let mut files = self.files.remove(&name).unwrap_or_default();
        let ours = capture(topic, &files);
        let merged = Self::merge(&base, &ours, &theirs);
        let trees = [&ours, &theirs, &merged];
        let named = |tree: &Tree| id(trees.iter().position(|other| *other == tree).unwrap());
        let plan = plan_topic(false, state, named(&ours), named(&theirs), named(&merged));
        if plan.commit {
            self.heads.insert(name.clone(), self.commits.len());
            self.commits.push(merged.clone());
        }
        if plan.apply {
            apply(topic, &mut files, &ours, &merged);
        }
        if plan.mirror {
            self.bases.insert(name.clone(), self.heads[&name]);
        }
        self.files.insert(name, files);
        plan.status
    }

    fn sync(&mut self) -> (Vec<SyncTopicStatus>, String) {
        let manifest = load(MANIFEST);
        let mut statuses = Vec::new();
        let mut summary = String::new();
        let (mut state, mut action) = Sync::start(false, true);
        loop {
            let event = match action {
                SyncAction::ReconcileManifest => SyncEvent::Reconciled(Reconciled::Head(id(0))),
                SyncAction::LoadManifest(_) => SyncEvent::Topics(
                    manifest
                        .topics
                        .iter()
                        .map(|topic| TopicEntry { name: topic.name.clone(), enabled: topic.enabled })
                        .collect(),
                ),
                SyncAction::ReconcileTopic(i) => {
                    SyncEvent::Reconciled(match self.heads.get(&state.topics[i].name) {
                        Some(head) => Reconciled::Head(id(*head)),
                        None => Reconciled::NoHistory,
                    })
                }
                SyncAction::UpdateHeads(updates) => {
                    for update in &updates[1..] {
                        assert!(self.heads.values().any(|head| id(*head) == update.head));
                    }
                    SyncEvent::Done
                }
                SyncAction::GetHostname => SyncEvent::Done,
                SyncAction::SyncTopic { index, state } => {
                    let status = self.sync_topic(&manifest.topics[index], state);
                    statuses.push(status);
                    SyncEvent::Synced(status)
                }
                SyncAction::ShowSummary(text) => {
                    summary = text;
                    SyncEvent::Done
                }
                SyncAction::Finish => return (statuses, summary),
                other => panic!("{other:?}"),
            };
            let (next_state, next_action) = state.step(event);
            state = next_state;
            action = next_action;
        }
    }
}

#[test]
fn a_second_synchronization_changes_nothing() {
    let mut host = Host {
        commits: vec![Tree::new(), tree(&[("a", "for @"), ("b", "theirs @\n")])],
        heads: BTreeMap::from([("hooked".to_owned(), 1)]),
        bases: BTreeMap::new(),
        files: BTreeMap::from([
            ("hooked".to_owned(), tree(&[("a", "for me"), ("c", "mine, me\r\n")])),
            ("plain".to_owned(), tree(&[("x", "y\r\n")])),
            ("off".to_owned(), tree(&[("z", "z")])),
        ]),
    };
    let (statuses, _) = host.sync();
    assert_eq!(statuses, [SyncTopicStatus::CapturedAndApplied, SyncTopicStatus::Captured]);
    assert_eq!(host.files["hooked"]["b"], b"theirs me\n");
    let before = host.clone();
    let (statuses, summary) = host.sync();
    assert_eq!(statuses, [SyncTopicStatus::Unchanged, SyncTopicStatus::Unchanged]);
    assert_eq!(summary, "Summary: 2 topic(s) checked, 2 clean, 0 changed, 0 conflict(s)");
    assert_eq!(host, before);
}
