use std::collections::BTreeMap;

use porchetta::chezmoi::collapse::{ancestor_dirs, compute_manifest_paths, ListedEntry, Listing};
use porchetta::chezmoi::generate::{escape_lua_string, generate_manifest, manifest_text};
use porchetta::chezmoi::migrate::{after_preview, path_count, preview, MigrateStep};
use porchetta::chezmoi::names::strip_prefix;
use porchetta::chezmoi::topics::{
    extract_topic_root, find_common_prefix, group_into_topics, managed_files, remap_target_path,
    topic_name_for_path, MigratedTopic, TopicGroup,
};
use porchetta::chezmoi::walk::{
    enters_directory, walk_source_dir, SourceEntry, SourceKind, TargetEntry, Warnings,
};
use porchetta::chezmoi::{
    is_special_chezmoi_dir, is_special_chezmoi_file, parse_dir_name, parse_file_name, FileKind,
    NameError,
};
use porchetta::manifest::Manifest;
use porchetta::order::SortedSet;
use porchetta::paths::TargetPath;

fn path(text: &str) -> TargetPath {
    TargetPath::from_text(text)
}

fn managed(paths: &[&str]) -> SortedSet<TargetPath> {
    let mut set = SortedSet::new();
    for text in paths {
        set.insert(path(text));
    }
    set
}

/// The listings of all directories that matter, where these files and empty directories exist.
fn listings(managed: &SortedSet<TargetPath>, files: &[&str], dirs: &[&str]) -> Vec<Listing> {
    let mut list = Vec::new();
    for dir in ancestor_dirs(managed).items {
        let prefix = dir.path.text();
        let mut found: BTreeMap<String, bool> = BTreeMap::new();
        for (texts, directory) in [(files, false), (dirs, true)] {
            for text in texts {
                let rest = if prefix.is_empty() {
                    Some(*text)
                } else {
                    text.strip_prefix(prefix.as_str()).and_then(|rest| rest.strip_prefix('/'))
                };
                if let Some(rest) = rest {
                    match rest.split_once('/') {
                        Some((first, _)) => found.insert(first.to_owned(), true),
                        None => found.insert(rest.to_owned(), directory),
                    };
                }
            }
        }
        let entries = found
            .into_iter()
            .map(|(name, directory)| ListedEntry { name, directory })
            .collect();
        list.push(Listing { dir: dir.path.copy(), entries });
    }
    list
}

fn texts(paths: &[TargetPath]) -> Vec<String> {
    paths.iter().map(|path| path.text()).collect()
}

fn entry(text: &str) -> TargetEntry {
    TargetEntry {
        target_rel_path: path(text),
        kind: FileKind::Regular,
        template: false,
        encrypted: false,
    }
}

fn root_text(group: &TopicGroup) -> Option<String> {
    group.root.as_ref().map(|root| root.text())
}

fn find<'a>(topics: &'a [MigratedTopic], name: &str) -> &'a TopicGroup {
    &topics.iter().find(|topic| topic.name == name).unwrap().group
}

#[test]
fn test_parse_dir_name() {
    let d = parse_dir_name("dot_config").unwrap();
    assert_eq!(d.target_name, ".config");
    assert!(!d.exact);
    assert!(!d.external);

    let d = parse_dir_name("exact_dot_ssh").unwrap();
    assert_eq!(d.target_name, ".ssh");
    assert!(d.exact);

    let d = parse_dir_name("exact_private_foo").unwrap();
    assert_eq!(d.target_name, "foo");
    assert!(d.exact);
    assert!(d.private);

    let d = parse_dir_name("literal_dot_").unwrap();
    assert_eq!(d.target_name, "dot_");
}

#[test]
fn test_parse_file_name() {
    let f = parse_file_name("dot_bashrc").unwrap();
    assert_eq!(f.target_name, ".bashrc");
    assert_eq!(f.kind, FileKind::Regular);
    assert!(!f.template);

    let f = parse_file_name("dot_gitconfig.tmpl").unwrap();
    assert_eq!(f.target_name, ".gitconfig");
    assert!(f.template);

    let f = parse_file_name("private_executable_dot_zshrc").unwrap();
    assert_eq!(f.target_name, ".zshrc");
    assert!(f.private);
    assert!(f.executable);

    let f = parse_file_name("create_dot_foo").unwrap();
    assert_eq!(f.target_name, ".foo");
    assert_eq!(f.kind, FileKind::Create);

    let f = parse_file_name("encrypted_private_dot_secret.age").unwrap();
    assert_eq!(f.target_name, ".secret");
    assert!(f.encrypted);
    assert!(f.private);
}

#[test]
fn test_parse_script_names() {
    let f = parse_file_name("run_once_install.sh").unwrap();
    assert_eq!(f.target_name, "install.sh");
    assert_eq!(f.kind, FileKind::Script);

    let f = parse_file_name("run_onchange_after_setup.sh").unwrap();
    assert_eq!(f.target_name, "setup.sh");
    assert_eq!(f.kind, FileKind::Script);
}

#[test]
fn names_without_a_rest_are_refused() {
    let error = parse_dir_name("").unwrap_err();
    assert!(matches!(error, NameError::EmptyDirectoryName));
    assert_eq!(error.message(), "empty directory name");
    let error = parse_dir_name("private_dot_").unwrap_err();
    assert!(matches!(error, NameError::InvalidDirectoryName(_)));
    assert_eq!(error.message(), "private_dot_: invalid directory name");
    let error = parse_file_name("").unwrap_err();
    assert!(matches!(error, NameError::EmptyFileName));
    assert_eq!(error.message(), "empty filename");
    let error = parse_file_name("private_").unwrap_err();
    assert!(matches!(error, NameError::InvalidFileName(_)));
    assert_eq!(error.message(), "private_: invalid filename");
}

#[test]
fn prefixes_are_stripped_once() {
    assert_eq!(strip_prefix("dot_dot_x", "dot_"), (true, "dot_x"));
    assert_eq!(strip_prefix("x", "dot_"), (false, "x"));
}

#[test]
fn special_names_are_known() {
    assert!(is_special_chezmoi_file(".chezmoiignore"));
    assert!(!is_special_chezmoi_file("dot_bashrc"));
    assert!(is_special_chezmoi_dir(".chezmoiscripts"));
    assert!(!is_special_chezmoi_dir("dot_config"));
}

#[test]
fn test_collapse_fully_managed_dir() {
    let set = managed(&["a/b/c.txt", "a/b/d.txt"]);
    let list = listings(&set, &["a/b/c.txt", "a/b/d.txt", "a/x.txt"], &[]);
    assert_eq!(texts(&compute_manifest_paths(&set, &list)), ["a/b"]);
}

#[test]
fn test_no_collapse_with_unmanaged() {
    let set = managed(&["a/b.txt"]);
    let list = listings(&set, &["a/b.txt", "a/x.txt"], &[]);
    assert_eq!(texts(&compute_manifest_paths(&set, &list)), ["a/b.txt"]);
}

#[test]
fn test_partial_collapse() {
    let set = managed(&["a/b/c.txt", "a/b/d.txt", "a/e.txt"]);
    let list = listings(&set, &["a/b/c.txt", "a/b/d.txt", "a/e.txt", "a/f.txt"], &[]);
    let paths = texts(&compute_manifest_paths(&set, &list));
    assert!(paths.contains(&"a/b".to_owned()));
    assert!(paths.contains(&"a/e.txt".to_owned()));
    assert!(!paths.contains(&"a/b/c.txt".to_owned()));
    assert_eq!(paths.len(), 2);
}

#[test]
fn collapsed_directories_cover_all_and_hide_nothing() {
    let set = managed(&["a/b/c", "a/b/d", "a/e", "x/y"]);
    let list = listings(&set, &["a/b/c", "a/b/d", "a/e", "x/y", "x/z"], &[]);
    let paths = texts(&compute_manifest_paths(&set, &list));
    assert_eq!(paths, ["a", "x/y"]);
}

#[test]
fn test_group_into_topics() {
    let entries: Vec<TargetEntry> = [
        ".config/nvim/init.lua",
        ".config/nvim/lua/plugins.lua",
        ".bashrc",
        ".zshrc",
        ".gitconfig",
        ".ssh/config",
        ".local/bin/my-script",
        ".inputrc",
    ]
    .iter()
    .map(|text| entry(text))
    .collect();
    let set = managed_files(&entries);
    let list = listings(
        &set,
        &[
            ".config/nvim/init.lua",
            ".config/nvim/lua/plugins.lua",
            ".bashrc",
            ".zshrc",
            ".gitconfig",
            ".ssh/config",
            ".ssh/id_rsa",
            ".local/bin/my-script",
            ".inputrc",
        ],
        &[".config/other_app", ".local/share"],
    );
    let topics = group_into_topics(&set, &list);

    let nvim = find(&topics, "nvim");
    assert_eq!(root_text(nvim).as_deref(), Some(".config/nvim"));
    let paths = texts(&nvim.paths);
    assert!(paths.contains(&"init.lua".to_owned()));
    assert!(paths.contains(&"lua/plugins.lua".to_owned()));
    let shell = find(&topics, "shell");
    assert!(shell.root.is_none());
    let paths = texts(&shell.paths);
    assert!(paths.contains(&".bashrc".to_owned()));
    assert!(paths.contains(&".zshrc".to_owned()));
    assert!(paths.contains(&".inputrc".to_owned()));
    let git = find(&topics, "git");
    assert!(git.root.is_none());
    assert_eq!(texts(&git.paths), [".gitconfig"]);
    let ssh = find(&topics, "ssh");
    assert!(ssh.root.is_none());
    assert_eq!(texts(&ssh.paths), [".ssh/config"]);
    let bin = find(&topics, "bin");
    assert!(bin.root.is_none());
    assert_eq!(texts(&bin.paths), [".local/bin/my-script"]);
}

#[test]
fn test_appdata_remap_does_not_hide_unmanaged() {
    let entries =
        vec![entry("AppData/Local/nvim/init.lua"), entry("AppData/Local/nvim/lua/plugins.lua")];
    let set = managed_files(&entries);
    let list = listings(
        &set,
        &[
            "AppData/Local/nvim/init.lua",
            "AppData/Local/nvim/lua/plugins.lua",
            "AppData/Local/nvim/unmanaged.txt",
        ],
        &[],
    );
    let topics = group_into_topics(&set, &list);
    let nvim = find(&topics, "nvim");
    assert_eq!(root_text(nvim).as_deref(), Some(".config/nvim"));
    let paths = texts(&nvim.paths);
    assert!(paths.contains(&"init.lua".to_owned()));
    assert!(paths.contains(&"lua/plugins.lua".to_owned()));
    assert!(!paths.contains(&".config/nvim".to_owned()));
}

#[test]
fn test_appdata_remap_collapse_when_fully_managed() {
    let files = [
        "AppData/Local/nvim/init.lua",
        "AppData/Local/nvim/lua/plugins.lua",
        "AppData/Local/nvim/lua/settings.lua",
    ];
    let entries: Vec<TargetEntry> = files.iter().map(|text| entry(text)).collect();
    let set = managed_files(&entries);
    let topics = group_into_topics(&set, &listings(&set, &files, &[]));
    let nvim = find(&topics, "nvim");
    assert_eq!(root_text(nvim).as_deref(), Some(".config/nvim"));
    let paths = texts(&nvim.paths);
    assert!(paths.contains(&"init.lua".to_owned()));
    assert!(paths.contains(&"lua/plugins.lua".to_owned()));
    assert!(paths.contains(&"lua/settings.lua".to_owned()));
}

#[test]
fn application_data_goes_where_configuration_is() {
    assert_eq!(remap_target_path(&path("AppData/Local/nvim/x")).text(), ".config/nvim/x");
    assert_eq!(remap_target_path(&path(".bashrc")).text(), ".bashrc");
}

#[test]
fn topics_are_named_after_what_they_hold() {
    assert_eq!(topic_name_for_path(&path(".bashrc")), "shell");
    assert_eq!(topic_name_for_path(&path(".gitconfig")), "git");
    assert_eq!(topic_name_for_path(&path(".config/nvim/init.lua")), "nvim");
    assert_eq!(topic_name_for_path(&path(".ssh/config")), "ssh");
    assert_eq!(topic_name_for_path(&path(".tmux.conf")), "tmux");
    assert_eq!(topic_name_for_path(&path(".vimrc")), "vim");
    assert_eq!(topic_name_for_path(&path("notes.txt")), "home");
    assert_eq!(topic_name_for_path(&path(".local/bin/x")), "bin");
    assert_eq!(topic_name_for_path(&path(".local/share/fonts/x")), "fonts");
    assert_eq!(topic_name_for_path(&path("a/b")), "a");
}

#[test]
fn roots_are_what_all_paths_share() {
    let shared = find_common_prefix(&vec![path("a/b/c"), path("a/b/d")]).unwrap();
    assert_eq!(shared.text(), "a/b");
    let group =
        extract_topic_root(&vec![path(".config/x/c"), path(".config/x/d/e")], &SortedSet::new());
    assert_eq!(root_text(&group).as_deref(), Some(".config/x"));
    assert_eq!(texts(&group.paths), ["c", "d/e"]);
}

fn file(name: &str) -> SourceEntry {
    SourceEntry { name: name.to_owned(), kind: SourceKind::File }
}

#[test]
fn walk_takes_files_and_counts_the_rest() {
    let list = vec![
        file("dot_bashrc"),
        file("run_once_install.sh"),
        file("create_dot_x"),
        file("symlink_dot_y"),
        file("modify_dot_z"),
        file("remove_dot_w"),
        SourceEntry {
            name: "external_dot_vendor".to_owned(),
            kind: SourceKind::Directory(vec![file("dot_foreign")]),
        },
        file("dot_gitconfig.tmpl"),
        file("encrypted_dot_secret.age"),
        file(".chezmoiignore"),
        SourceEntry { name: "link".to_owned(), kind: SourceKind::Symlink },
        SourceEntry {
            name: "dot_config".to_owned(),
            kind: SourceKind::Directory(vec![file("private_app.toml")]),
        },
        SourceEntry {
            name: ".chezmoiscripts".to_owned(),
            kind: SourceKind::Directory(vec![file("dot_never")]),
        },
    ];
    let mut entries = Vec::new();
    let mut warnings = Warnings::new();
    assert!(!warnings.has_any());
    walk_source_dir(&list, &TargetPath::empty(), &mut entries, &mut warnings);
    let found: Vec<String> = entries.iter().map(|entry| entry.target_rel_path.text()).collect();
    assert!(found.contains(&".bashrc".to_owned()));
    assert!(found.contains(&".gitconfig".to_owned()));
    assert!(found.contains(&".secret".to_owned()));
    assert!(found.contains(&".config/app.toml".to_owned()));
    assert!(!found.iter().any(|text| text.contains("never")));
    assert!(!found.iter().any(|text| text.contains("install")));
    assert_eq!(warnings.scripts, 1);
    assert_eq!(warnings.templates, 1);
    assert_eq!(warnings.encrypted, 1);
    assert!(warnings.has_any());
    assert_eq!(warnings.creates, 1);
    assert_eq!(warnings.symlinks, 1);
    assert_eq!(warnings.modifies, 1);
    assert_eq!(warnings.external_dirs, 1);
    assert!(found.contains(&"link".to_owned()));
    assert!(found.contains(&".x".to_owned()));
    assert_eq!(found.len(), 6);
    assert!(enters_directory("dot_config"));
    assert!(!enters_directory(".chezmoiscripts"));
}

#[test]
fn warnings_are_summed_up() {
    let warnings = Warnings {
        scripts: 1,
        symlinks: 2,
        modifies: 3,
        creates: 4,
        templates: 5,
        encrypted: 6,
        external_dirs: 7,
    };
    assert_eq!(
        warnings.summary(),
        "1 script(s) skipped, 2 symlink(s) skipped, 3 modify script(s) skipped, \
         4 create-only file(s) (semantics lost), 5 template(s) detected, \
         6 encrypted file(s) detected, 7 external dir(s) skipped"
    );
    assert_eq!(Warnings::new().summary(), "");
}

#[test]
fn literals_are_escaped() {
    assert_eq!(escape_lua_string("plain"), "plain");
    assert_eq!(escape_lua_string("\u{1}\u{7f}\u{9b}"), "\\u{0001}\\u{007f}\\u{009b}");
    assert_eq!(escape_lua_string("a\"b\\c\n"), "a\\\"b\\\\c\\n");
}

fn migrated(name: &str, root: Option<&str>, paths: &[&str]) -> MigratedTopic {
    MigratedTopic {
        name: name.to_owned(),
        group: TopicGroup {
            root: root.map(path),
            paths: paths.iter().map(|text| path(text)).collect(),
        },
    }
}

fn lua() -> mlua::Lua {
    let lua = mlua::Lua::new();
    let table = porchetta::lua_runtime::create_porchetta_table(&lua).unwrap();
    lua.globals().set("porchetta", table).unwrap();
    lua
}

#[test]
fn test_generate_manifest_roundtrip() {
    let topics = vec![
        migrated("nvim", Some(".config/nvim"), &["init.lua", "lua/plugins.lua"]),
        migrated("shell", None, &[".bashrc", ".zshrc"]),
    ];

    let bytes = generate_manifest(lua(), &topics).unwrap();
    let manifest = Manifest::load(lua(), &bytes).unwrap();
    assert_eq!(manifest.topics.len(), 2);
    let shell = manifest.topics.iter().find(|t| t.name == "shell").unwrap();
    assert_eq!(shell.paths.len(), 2);
    assert!(shell.root.is_none());
    let nvim = manifest.topics.iter().find(|t| t.name == "nvim").unwrap();
    assert_eq!(nvim.paths.len(), 2);
    assert_eq!(nvim.root, Some(".config/nvim".to_owned()));
}

#[test]
fn generated_manifests_hold_every_character() {
    let topics = vec![migrated("weird", None, &["new\nline", "tab\t\"quoted\""])];
    let bytes = generate_manifest(lua(), &topics).unwrap();
    assert_eq!(bytes, manifest_text(&topics).into_bytes());
    let manifest = Manifest::load(lua(), &bytes).unwrap();
    assert_eq!(manifest.topics[0].name, "weird");
    assert_eq!(manifest.topics[0].paths, ["new\nline", "tab\t\"quoted\""]);
}

#[test]
fn invalid_topics_are_not_generated() {
    let error = generate_manifest(lua(), &vec![migrated("bad", None, &["../outside"])]).unwrap_err();
    assert_eq!(error.message(), "generated manifest failed validation — this is a bug");
}

#[test]
fn topics_keep_their_names() {
    let names =
        ["", "9p", "Git", "_x", "end", "git2", "no-word", "quote\"back\\slash", "two words", "é"];
    let topics: Vec<_> = names.iter().map(|name| migrated(name, Some("r"), &["p"])).collect();
    let text = manifest_text(&topics);
    for key in ["Git", "_x", "git2", "[\"\"]", "[\"9p\"]", "[\"end\"]", "[\"no-word\"]", "[\"é\"]"] {
        assert!(text.contains(&format!("\n        {key} = {{\n")), "{key}");
    }
    let bytes = generate_manifest(lua(), &topics).unwrap();
    let manifest = Manifest::load(lua(), &bytes).unwrap();
    let loaded: Vec<&str> = manifest.topics.iter().map(|topic| topic.name.as_str()).collect();
    assert_eq!(loaded, names);
    for topic in &manifest.topics {
        assert_eq!(topic.root.as_deref(), Some("r"));
        assert_eq!(topic.paths, ["p"]);
    }
}

#[test]
fn keywords_are_no_bare_keys() {
    let words = "and break do else elseif end false for function goto if in local nil not or \
                 repeat return then true until while";
    for word in words.split(' ') {
        let bytes = generate_manifest(lua(), &vec![migrated(word, None, &["p"])]).unwrap();
        assert!(String::from_utf8(bytes).unwrap().contains(&format!("[\"{word}\"] = {{")));
    }
}

#[test]
fn previews_count_and_list() {
    let topics = vec![
        migrated("nvim", Some(".config/nvim"), &["init.lua", "lua"]),
        migrated("shell", None, &[".bashrc"]),
    ];
    assert_eq!(path_count(&topics), Some(3));
    let shown = preview(1, 3, &topics, &Warnings::new());
    assert_eq!(shown.headline, "Migrated 1 chezmoi entry into 3 manifest paths in 2 topics");
    assert_eq!(shown.topics, ["nvim [.config/nvim]  (init.lua, lua)", "shell  (.bashrc)"]);
    assert!(shown.warnings.is_none());

    let mut warnings = Warnings::new();
    warnings.scripts = 2;
    let shown = preview(2, 1, &Vec::new(), &warnings);
    assert_eq!(shown.headline, "Migrated 2 chezmoi entries into 1 manifest path in 0 topics");
    assert!(shown.warnings.unwrap().starts_with("Warnings: "));
}

#[test]
fn migrations_ask_unless_told_not_to() {
    assert!(matches!(after_preview(true, None), MigrateStep::Write));
    assert!(matches!(after_preview(false, None), MigrateStep::Ask));
    assert!(matches!(after_preview(false, Some(true)), MigrateStep::Write));
    assert!(matches!(after_preview(false, Some(false)), MigrateStep::Cancel));
}
