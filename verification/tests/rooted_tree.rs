use porchetta::object::{EntryKind, ObjectId};
use porchetta::rooted_tree::{
    cycle_message, missing_object_message, write_tree, CaptureError, Object, RootedTree, StoredObject, SubEntry,
    TreeEntry, Walked, WriteAction, WriteOutError,
};

fn file(key: &str, content: &[u8]) -> Walked {
    Walked::File {
        key: key.as_bytes().to_vec(),
        name: key.rsplit('/').next().unwrap().to_owned(),
        content: Ok(content.to_vec()),
    }
}

fn dir(key: &str, entries: &[(&str, bool)]) -> Walked {
    Walked::Directory {
        key: key.as_bytes().to_vec(),
        name: key.rsplit('/').next().unwrap().to_owned(),
        entries: entries
            .iter()
            .map(|(name, included)| SubEntry { name: name.as_bytes().to_vec(), included: *included })
            .collect(),
        failure: None,
    }
}

fn capture(walked: Vec<Walked>) -> Result<RootedTree, CaptureError> {
    RootedTree::capture("/root".to_owned(), &walked)
}

fn written(tree: RootedTree) -> Vec<(String, Option<Vec<u8>>)> {
    let (actions, error) = tree.apply();
    assert!(error.is_none());
    let mut list: Vec<(String, Option<Vec<u8>>)> = actions
        .into_iter()
        .map(|action| match action {
            WriteAction::Directory { path } => (path.join("/"), None),
            WriteAction::File { path, content } => (path.join("/"), Some(content)),
        })
        .collect();
    list.sort();
    list
}

#[test]
fn test_rooted_tree_roundtrip() {
    let tree = capture(vec![
        dir("nested/deep_empty", &[]),
        file("nested/nested_file.txt", b"Hello from the nest"),
        dir("nested", &[("nested_file.txt", true), ("deep_empty", true)]),
        file("root_file.txt", b"Hello from the root"),
        dir("", &[("root_file.txt", true), ("nested", true)]),
    ])
    .unwrap();
    assert!(!tree.objects.is_empty(), "Tree should have captured objects");
    assert_eq!(
        written(tree),
        [
            ("".to_owned(), None),
            ("nested".to_owned(), None),
            ("nested/deep_empty".to_owned(), None),
            ("nested/nested_file.txt".to_owned(), Some(b"Hello from the nest".to_vec())),
            ("root_file.txt".to_owned(), Some(b"Hello from the root".to_vec())),
        ]
    );
}

#[test]
fn test_rooted_tree_predicate_filtering() {
    let tree = capture(vec![
        Walked::Skipped,
        file("keep.txt", b"keep me"),
        dir("", &[("keep.txt", true), ("ignore.txt", false)]),
    ])
    .unwrap();
    let names: Vec<String> = written(tree).into_iter().map(|(path, _)| path).collect();
    assert_eq!(names, ["", "keep.txt"]);
}

#[test]
fn objects_have_the_names_that_git_gives_them() {
    let tree = capture(vec![file("a", b"hello\n"), dir("", &[("a", true)])]).unwrap();
    assert_eq!(tree.objects[0].id.hex(), "ce013625030ba8dba906f756967f9e9ca394464a");
    let empty = capture(vec![dir("", &[])]).unwrap();
    assert_eq!(empty.tree_id.hex(), "4b825dc642cb6eb9a060e54bf8d69288fbee4904");
}

#[test]
fn trees_are_written_as_git_writes_them() {
    let id = ObjectId { hi: 0x0102030405060708, mid: 0x090a0b0c0d0e0f10, lo: 0x11121314 };
    let entries = vec![
        TreeEntry { kind: EntryKind::Blob, name: b"a".to_vec(), id },
        TreeEntry { kind: EntryKind::Tree, name: b"b".to_vec(), id },
        TreeEntry { kind: EntryKind::BlobExecutable, name: b"c".to_vec(), id },
        TreeEntry { kind: EntryKind::Link, name: b"d".to_vec(), id },
        TreeEntry { kind: EntryKind::Commit, name: b"e".to_vec(), id },
    ];
    let kinds = [
        gix::objs::tree::EntryKind::Blob,
        gix::objs::tree::EntryKind::Tree,
        gix::objs::tree::EntryKind::BlobExecutable,
        gix::objs::tree::EntryKind::Link,
        gix::objs::tree::EntryKind::Commit,
    ];
    let bytes: Vec<u8> = (1..=20).collect();
    let tree = gix::objs::Tree {
        entries: kinds
            .iter()
            .zip(["a", "b", "c", "d", "e"])
            .map(|(kind, name)| gix::objs::tree::Entry {
                mode: (*kind).into(),
                filename: name.into(),
                oid: gix::ObjectId::from_bytes_or_panic(&bytes),
            })
            .collect(),
    };
    let mut expected = Vec::new();
    gix::objs::WriteTo::write_to(&tree, &mut expected).unwrap();
    assert_eq!(write_tree(&entries).unwrap(), expected);
}

#[test]
fn names_with_a_zero_byte_are_refused() {
    let id = ObjectId { hi: 0, mid: 0, lo: 0 };
    let entries = vec![TreeEntry { kind: EntryKind::Blob, name: b"a\0b".to_vec(), id }];
    assert_eq!(write_tree(&entries).unwrap_err(), b"a\0b");
    let error = capture(vec![
        Walked::File { key: b"a".to_vec(), name: "\0".to_owned(), content: Ok(Vec::new()) },
        dir("", &[("a", true)]),
    ])
    .unwrap_err();
    assert!(matches!(error, CaptureError::BrokenName(_)));
    assert!(error.message().is_none());
}

#[test]
fn captures_fail_where_something_is_missing() {
    let error = capture(vec![dir("a", &[("b", true)])]).unwrap_err();
    assert_eq!(error.message().unwrap(), "Missing tree entry for a/b");
    let error = capture(vec![file("a", b"x")]).unwrap_err();
    assert_eq!(error.message().unwrap(), "Missing root tree entry");
    let error = capture(vec![Walked::Other { path: "/root/fifo".to_owned() }]).unwrap_err();
    assert_eq!(error.message().unwrap(), "Unsupported file type: /root/fifo");
    let error = capture(vec![Walked::Failed("gone".to_owned())]).unwrap_err();
    assert_eq!(error.message().unwrap(), "gone");
    let error = capture(vec![
        Walked::File {
            key: b"a".to_vec(),
            name: "a".to_owned(),
            content: Err("denied".to_owned()),
        },
        Walked::Other { path: "later".to_owned() },
    ])
    .unwrap_err();
    assert_eq!(error.message().unwrap(), "denied");
    let error = capture(vec![Walked::Directory {
        key: Vec::new(),
        name: "root".to_owned(),
        entries: Vec::new(),
        failure: Some("unreadable".to_owned()),
    }])
    .unwrap_err();
    assert_eq!(error.message().unwrap(), "unreadable");
}

#[test]
fn equal_files_are_all_written() {
    let tree = capture(vec![
        file("a", b"same"),
        file("b", b"same"),
        dir("", &[("a", true), ("b", true)]),
    ])
    .unwrap();
    assert_eq!(tree.objects.len(), 2);
    assert_eq!(
        written(tree),
        [
            ("".to_owned(), None),
            ("a".to_owned(), Some(b"same".to_vec())),
            ("b".to_owned(), Some(b"same".to_vec())),
        ]
    );
}

#[test]
fn equal_directories_are_all_written() {
    let tree = capture(vec![
        dir("one/empty", &[]),
        file("one/f", b"x"),
        dir("one", &[("empty", true), ("f", true)]),
        dir("two/empty", &[]),
        file("two/f", b"x"),
        dir("two", &[("empty", true), ("f", true)]),
        dir("", &[("one", true), ("two", true)]),
    ])
    .unwrap();
    assert_eq!(tree.objects.len(), 4);
    assert_eq!(
        written(tree),
        [
            ("".to_owned(), None),
            ("one".to_owned(), None),
            ("one/empty".to_owned(), None),
            ("one/f".to_owned(), Some(b"x".to_vec())),
            ("two".to_owned(), None),
            ("two/empty".to_owned(), None),
            ("two/f".to_owned(), Some(b"x".to_vec())),
        ]
    );
}

#[test]
fn missing_objects_stop_writing() {
    let tree = capture(vec![file("a", b"x"), dir("", &[("a", true)])]).unwrap();
    let tree_id = tree.tree_id;
    let objects: Vec<StoredObject> =
        tree.objects.into_iter().filter(|stored| stored.id == tree_id).collect();
    let (actions, error) = RootedTree { root: tree.root, tree_id, objects }.apply();
    assert_eq!(actions.len(), 1);
    match error.unwrap() {
        WriteOutError::MissingObject { id, path } => {
            assert_eq!(path, ["a"]);
            assert_eq!(
                missing_object_message(id, "/root/a"),
                format!("Missing object for OID {} at path /root/a", id.hex())
            );
        }
        error => panic!("{error:?}"),
    }
    let empty = RootedTree { root: "/root".to_owned(), tree_id, objects: Vec::new() };
    let (actions, error) = empty.apply();
    assert!(actions.is_empty());
    assert!(matches!(error, Some(WriteOutError::MissingObject { id, path })
        if id == tree_id && path.is_empty()));
}

#[test]
fn trees_within_themselves_stop_writing() {
    let outer = ObjectId { hi: 1, mid: 0, lo: 0 };
    let inner = ObjectId { hi: 2, mid: 0, lo: 0 };
    let entry = |name: &str, id: ObjectId| TreeEntry {
        kind: EntryKind::Tree,
        name: name.as_bytes().to_vec(),
        id,
    };
    let tree = RootedTree {
        root: "/root".to_owned(),
        tree_id: outer,
        objects: vec![
            StoredObject { id: outer, object: Object::Tree(vec![entry("in", inner)]) },
            StoredObject { id: inner, object: Object::Tree(vec![entry("out", outer)]) },
        ],
    };
    let (actions, error) = tree.apply();
    assert_eq!(actions.len(), 2);
    match error.unwrap() {
        WriteOutError::Cycle { id, path } => {
            assert_eq!(id, outer);
            assert_eq!(path, ["in", "out"]);
            assert_eq!(
                cycle_message(id, "/root/in/out"),
                format!("Tree for OID {} contains itself at path /root/in/out", id.hex())
            );
        }
        error => panic!("{error:?}"),
    }
}

#[test]
fn names_that_are_no_text_stop_writing() {
    let id = ObjectId { hi: 1, mid: 0, lo: 0 };
    let entry = TreeEntry { kind: EntryKind::Blob, name: vec![0xff], id };
    let tree = RootedTree {
        root: "/root".to_owned(),
        tree_id: id,
        objects: vec![StoredObject { id, object: Object::Tree(vec![entry]) }],
    };
    let (actions, error) = tree.apply();
    assert_eq!(actions.len(), 1);
    assert!(matches!(error, Some(WriteOutError::Name(name)) if name == [0xff]));
}
