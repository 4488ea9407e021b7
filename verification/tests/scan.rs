use std::collections::BTreeMap;

use porchetta::scan::{Scan, ScanAction, ScanError, ScanEvent, ScanKind};

/// Files that exist; directories are what is above them.
struct Files<'a> {
    files: &'a [&'a str],
    excluded: &'a [&'a str],
}

impl Files<'_> {
    fn kind(&self, path: &str) -> ScanKind {
        if self.files.contains(&path) {
            ScanKind::File
        } else if self.files.iter().any(|file| {
            path.is_empty() || file.strip_prefix(path).is_some_and(|rest| rest.starts_with('/'))
        }) {
            ScanKind::Directory
        } else {
            ScanKind::Missing
        }
    }

    fn entries(&self, path: &str) -> Vec<String> {
        let mut names = BTreeMap::new();
        for file in self.files {
            let rest = if path.is_empty() {
                Some(*file)
            } else {
                file.strip_prefix(path).and_then(|rest| rest.strip_prefix('/'))
            };
            if let Some(rest) = rest {
                names.insert(rest.split('/').next().unwrap().to_owned(), ());
            }
        }
        names.into_keys().collect()
    }

    fn scan(&self, paths: &[&str], lenient: bool) -> Result<(Vec<String>, Vec<String>), ScanError> {
        let paths: Vec<String> = paths.iter().map(|path| (*path).to_owned()).collect();
        let (mut scan, mut action) = Scan::start("base", &paths, lenient)?;
        let mut asked = Vec::new();
        loop {
            let here = scan.current.text();
            let event = match action {
                ScanAction::Inspect => ScanEvent::Kind(self.kind(&here)),
                ScanAction::AskInclude(path) => {
                    let included = !self.excluded.contains(&path.as_str());
                    asked.push(path);
                    ScanEvent::Included(included)
                }
                ScanAction::List => ScanEvent::Entries(self.entries(&here)),
                ScanAction::Fail(error) => return Err(error),
                ScanAction::Finish => {
                    let mut found: Vec<String> =
                        scan.files.iter().map(|path| path.text()).collect();
                    found.sort();
                    return Ok((found, asked));
                }
            };
            let (next_scan, next_action) = scan.step(event);
            scan = next_scan;
            action = next_action;
        }
    }
}

#[test]
fn scans_find_files_below_directories() {
    let files = Files { files: &["a/b/c", "a/d", "e", "f"], excluded: &[] };
    assert_eq!(files.scan(&["a", "e"], false).unwrap().0, ["a/b/c", "a/d", "e"]);
    assert_eq!(files.scan(&["a", "a/d"], false).unwrap().0, ["a/b/c", "a/d"]);
}

#[test]
fn test_should_include_filters_files() {
    let files = Files { files: &["config.txt", "debug.log"], excluded: &["debug.log"] };
    let (found, asked) = files.scan(&["config.txt", "debug.log"], false).unwrap();
    assert_eq!(found, ["config.txt"]);
    assert_eq!(asked, ["config.txt", "debug.log"]);
}

#[test]
fn test_should_include_filters_directory_recursion() {
    let files = Files { files: &["d/config.txt", "d/cache/file.txt"], excluded: &["d/cache"] };
    let (found, asked) = files.scan(&["d"], false).unwrap();
    assert_eq!(found, ["d/config.txt"]);
    assert!(!asked.contains(&"d/cache/file.txt".to_owned()));
}

#[test]
fn repositories_are_not_entered() {
    let files = Files { files: &["d/.git/config", "d/x", ".git"], excluded: &[] };
    assert_eq!(files.scan(&["d"], false).unwrap().0, ["d/x"]);
    assert_eq!(files.scan(&[".git"], false).unwrap().0, [".git"]);
}

#[test]
fn missing_paths_are_errors_or_left_out() {
    let files = Files { files: &["a"], excluded: &[] };
    let error = files.scan(&["a", "gone"], false).unwrap_err();
    assert!(matches!(&error, ScanError::Missing(path) if path.text() == "gone"));
    assert_eq!(
        error.message("/base/gone"),
        "Path '/base/gone' does not exist or is not a file/directory"
    );
    assert_eq!(files.scan(&["a", "gone"], true).unwrap().0, ["a"]);
}

#[test]
fn paths_do_not_lead_upwards() {
    let files = Files { files: &["a"], excluded: &[] };
    let error = files.scan(&["a", "b/../c"], false).unwrap_err();
    assert!(matches!(error, ScanError::ParentDir(_)));
    assert_eq!(error.message(""), "path 'b/../c' contains '..' which is not allowed");
    let error = files.scan(&["/a", "b//../c"], false).unwrap_err();
    assert_eq!(error.message(""), "path 'b//../c' contains '..' which is not allowed");
}

#[test]
fn paths_do_not_start_at_the_root() {
    let files = Files { files: &["a"], excluded: &[] };
    for path in ["/a", "/", "//a"] {
        let error = files.scan(&["a", path], true).unwrap_err();
        assert!(matches!(&error, ScanError::Rooted(text) if text == path));
        let expected = format!("path '{path}' is not relative to the root of the topic");
        assert_eq!(error.message(""), expected);
    }
    assert_eq!(files.scan(&["./a"], false).unwrap().0, ["a"]);
}
