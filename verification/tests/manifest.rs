use porchetta::manifest::{
    captured_content, ensure_relative_path, is_included, normalize_root_under_home, IncludeError,
    Manifest, ManifestError, PathKind, Topic,
};

fn prepared() -> mlua::Lua {
    let lua = mlua::Lua::new();
    let table = porchetta::lua_runtime::create_porchetta_table(&lua).unwrap();
    lua.globals().set("porchetta", table).unwrap();
    lua
}


#[test]
fn test_load_manifest() {
    let manifest_content = r#"return {
        topics = {
            topic1 = {
                paths = {"path/to/file1", "path/to/file2"}
            },
            topic2 = {
                paths = {"path/to/file3"}
            },
            topic3 = {
                paths = {"path/to/file4"}
            },
            topic4 = {
                root = ".config/nvim",
                paths = {"init.lua", "lua/plugins.lua"}
            },
            topic5 = {
                root = "",
                paths = {"bare_file"}
            }
        }
    }"#;
    let manifest =
        Manifest::load(prepared(), manifest_content.as_bytes()).expect("Failed to load manifest");
    assert_eq!(manifest.topics.len(), 5);
    assert_eq!(manifest.topics[0].name, "topic1");
    assert_eq!(manifest.topics[0].paths.len(), 2);
    assert_eq!(manifest.topics[1].paths.len(), 1);
    assert_eq!(manifest.topics[2].paths.len(), 1);
    assert_eq!(manifest.topics[3].paths.len(), 2);
    assert_eq!(manifest.topics[4].paths.len(), 1);
    assert_eq!(
        manifest.topics[3].root,
        Some(".config/nvim".to_owned())
    );
    assert!(manifest.topics[0].root.is_none());
    assert!(manifest.topics[4].root.is_none()); // empty string normalized to None
}

#[test]
fn test_load_manifest_allows_dot_path() {
    let manifest_content = r#"return {
        topics = {
            dotfiles = {
                paths = {"."},
            }
        }
    }"#;

    let manifest = Manifest::load(prepared(), manifest_content.as_bytes()).unwrap();

    assert_eq!(manifest.topics[0].paths, vec![".".to_owned()]);
}

#[test]
fn test_load_manifest_rejects_path_parent_dir() {
    let manifest_content = r#"return {
        topics = {
            git = {
                paths = {"../.gitconfig"},
            }
        }
    }"#;

    let err = Manifest::load(prepared(), manifest_content.as_bytes())
        .unwrap_err()
        .message();

    assert!(err.contains("contains '..'"));
}

#[test]
fn test_load_manifest_rejects_absolute_path() {
    let manifest_content = r#"return {
        topics = {
            git = {
                paths = {"/tmp/.gitconfig"},
            }
        }
    }"#;

    let err = Manifest::load(prepared(), manifest_content.as_bytes())
        .unwrap_err()
        .message();

    assert!(err.contains("must be relative"));
}

#[test]
fn test_load_manifest_rejects_root_parent_dir() {
    let manifest_content = r#"return {
        topics = {
            git = {
                root = "..",
                paths = {".gitconfig"},
            }
        }
    }"#;

    let err = Manifest::load(prepared(), manifest_content.as_bytes())
        .unwrap_err()
        .message();

    assert!(err.contains("contains '..'"));
}

#[test]
fn test_load_manifest_rejects_absolute_root() {
    let manifest_content = r#"return {
        topics = {
            git = {
                root = "/tmp",
                paths = {".gitconfig"},
            }
        }
    }"#;

    let err = Manifest::load(prepared(), manifest_content.as_bytes())
        .unwrap_err()
        .message();

    assert!(err.contains("must be relative"));
}

#[test]
fn test_load_manifest_normalizes_absolute_root_under_home() {
    let manifest_content = r#"return {
        topics = {
            git = {
                root = "/home/user/.config/git",
                paths = {"config"},
            }
        }
    }"#;
    let home = "/home/user";
    let manifest = Manifest::load_with_home(prepared(), manifest_content.as_bytes(), Some(home)).unwrap();
    assert_eq!(
        manifest.topics[0].root,
        Some(".config/git".to_owned())
    );
}

#[test]
fn test_load_manifest_normalizes_root_equal_to_home() {
    let manifest_content = r#"return {
        topics = {
            git = {
                root = "/home/user",
                paths = {"config"},
            }
        }
    }"#;
    let home = "/home/user";
    let manifest = Manifest::load_with_home(prepared(), manifest_content.as_bytes(), Some(home)).unwrap();
    assert!(manifest.topics[0].root.is_none());
}

#[test]
fn test_load_manifest_absolute_root_outside_home_still_rejected() {
    let manifest_content = r#"return {
        topics = {
            git = {
                root = "/opt/other",
                paths = {"config"},
            }
        }
    }"#;
    let home = "/home/user";
    let err = Manifest::load_with_home(prepared(), manifest_content.as_bytes(), Some(home))
        .unwrap_err()
        .message();
    assert!(err.contains("must be relative"));
}

#[test]
fn test_load_manifest_rejects_non_string_root() {
    let manifest_content = r#"return {
        topics = {
            git = {
                root = true,
                paths = {".gitconfig"},
            }
        }
    }"#;

    let err = Manifest::load(prepared(), manifest_content.as_bytes())
        .unwrap_err()
        .message();

    assert!(err.contains("root"));
}

#[test]
fn test_load_manifest_with_hooks() {
    let manifest_content = r#"return {
        topics = {
            git = {
                paths = {".gitconfig"},
                to_repo = function(path, content)
                    return content
                end,
                to_system = function(path, content)
                    return content
                end,
            }
        }
    }"#;
    let manifest = Manifest::load(prepared(), manifest_content.as_bytes()).unwrap();
    assert_eq!(manifest.topics.len(), 1);
    assert!(manifest.topics[0].to_repo.is_some());
    assert!(manifest.topics[0].to_system.is_some());
}

#[test]
fn test_load_manifest_rejects_non_function_hook() {
    let manifest_content = r#"return {
        topics = {
            git = {
                paths = {".gitconfig"},
                to_repo = "not a function",
            }
        }
    }"#;
    let result = Manifest::load(prepared(), manifest_content.as_bytes());
    assert!(result.is_err());
    let err = result.unwrap_err().message();
    assert!(err.contains("to_repo"));
}

#[test]
fn test_load_manifest_with_should_include() {
    let manifest_content = r#"return {
        topics = {
            git = {
                paths = {".gitconfig"},
                should_include = function(path)
                    return path:sub(-4) ~= ".bak"
                end,
            }
        }
    }"#;
    let manifest = Manifest::load(prepared(), manifest_content.as_bytes()).unwrap();
    assert_eq!(manifest.topics.len(), 1);
    assert!(manifest.topics[0].should_include.is_some());
}

#[test]
fn test_load_manifest_rejects_non_function_should_include() {
    let manifest_content = r#"return {
        topics = {
            git = {
                paths = {".gitconfig"},
                should_include = true,
            }
        }
    }"#;
    let result = Manifest::load(prepared(), manifest_content.as_bytes());
    assert!(result.is_err());
    let err = result.unwrap_err().message();
    assert!(err.contains("should_include"));
}

#[test]
fn test_load_manifest_with_enabled() {
    let manifest_content = r#"return {
        topics = {
            git = {
                enabled = false,
                paths = {".gitconfig"},
            }
        }
    }"#;
    let manifest = Manifest::load(prepared(), manifest_content.as_bytes()).unwrap();
    assert!(!manifest.topics[0].enabled);
}

#[test]
fn test_load_manifest_defaults_enabled() {
    let manifest_content = r#"return {
        topics = {
            git = {
                paths = {".gitconfig"},
            }
        }
    }"#;
    let manifest = Manifest::load(prepared(), manifest_content.as_bytes()).unwrap();
    assert!(manifest.topics[0].enabled);
}

#[test]
fn test_load_manifest_rejects_non_boolean_enabled() {
    let manifest_content = r#"return {
        topics = {
            git = {
                enabled = "yes",
                paths = {".gitconfig"},
            }
        }
    }"#;
    let result = Manifest::load(prepared(), manifest_content.as_bytes());
    assert!(result.is_err());
    let err = result.unwrap_err().message();
    assert!(err.contains("enabled"));
}

#[test]
fn test_load_manifest_with_hostname() {
    let manifest_content = r#"return {
        topics = {
            git = {
                enabled = porchetta.hostname() ~= "",
                paths = {".gitconfig"},
            }
        }
    }"#;
    let manifest = Manifest::load(prepared(), manifest_content.as_bytes()).unwrap();
    assert!(manifest.topics[0].enabled);
}

#[test]
fn test_to_repo_transforms_content() {
    let lua = mlua::Lua::new();
    let func = lua
        .load(r#"function(path, content) return content:gsub("hello", "goodbye") end"#)
        .eval::<mlua::Function>()
        .unwrap();
    let topic = Topic {
        name: "test".to_string(),
        enabled: true,
        lua: lua.clone(),
        root: None,
        paths: vec![],
        to_repo: Some(func.clone()),
        to_system: None,
        should_include: None,
    };
    let result = topic.to_repo("a.txt", b"hello world").unwrap();
    assert_eq!(result, b"goodbye world");
}

#[test]
fn test_to_repo_rejects_non_string_return() {
    let lua = mlua::Lua::new();
    let func = lua
        .load(r"function(path, content) return 42 end")
        .eval::<mlua::Function>()
        .unwrap();
    let topic = Topic {
        name: "test".to_string(),
        enabled: true,
        lua: lua.clone(),
        root: None,
        paths: vec![],
        to_repo: Some(func),
        to_system: None,
        should_include: None,
    };
    let result = topic.to_repo("a.txt", b"hello world");
    assert!(result.is_err());
    let err = result.unwrap_err().message();
    assert!(err.contains("must return a string"));
}

#[test]
fn test_should_include_true() {
    let lua = mlua::Lua::new();
    let func = lua
        .load(r"function(path) return true end")
        .eval::<mlua::Function>()
        .unwrap();
    let topic = Topic {
        name: "test".to_string(),
        enabled: true,
        lua: lua.clone(),
        root: None,
        paths: vec![],
        to_repo: None,
        to_system: None,
        should_include: Some(func),
    };
    assert!(topic.should_include("a.txt").unwrap());
}

#[test]
fn test_should_include_false() {
    let lua = mlua::Lua::new();
    let func = lua
        .load(r"function(path) return false end")
        .eval::<mlua::Function>()
        .unwrap();
    let topic = Topic {
        name: "test".to_string(),
        enabled: true,
        lua: lua.clone(),
        root: None,
        paths: vec![],
        to_repo: None,
        to_system: None,
        should_include: Some(func),
    };
    assert!(!topic.should_include("a.txt").unwrap());
}

#[test]
fn test_should_include_rejects_non_boolean_return() {
    let lua = mlua::Lua::new();
    let func = lua
        .load(r"function(path) return 'yes' end")
        .eval::<mlua::Function>()
        .unwrap();
    let topic = Topic {
        name: "test".to_string(),
        enabled: true,
        lua: lua.clone(),
        root: None,
        paths: vec![],
        to_repo: None,
        to_system: None,
        should_include: Some(func),
    };
    let result = topic.should_include("a.txt");
    assert!(result.is_err());
    let err = result.unwrap_err().message();
    assert!(err.contains("must return a boolean"));
}

#[test]
fn test_load_manifest_with_top_level_should_include() {
    let manifest_content = r#"return {
        should_include = function(path)
            return path:sub(-4) ~= ".bak"
        end,
        topics = {
            git = {
                paths = {".gitconfig"}
            }
        }
    }"#;
    let manifest = Manifest::load(prepared(), manifest_content.as_bytes()).unwrap();
    assert!(manifest.should_include.is_some());
    assert!(manifest.should_include(".gitconfig").unwrap());
    assert!(!manifest.should_include("foo.bak").unwrap());
}

#[test]
fn test_load_manifest_rejects_non_function_top_level_should_include() {
    let manifest_content = r#"return {
        should_include = true,
        topics = {
            git = {
                paths = {".gitconfig"}
            }
        }
    }"#;
    let result = Manifest::load(prepared(), manifest_content.as_bytes());
    assert!(result.is_err());
    let err = result.unwrap_err().message();
    assert!(err.contains("should_include"));
}

#[test]
fn test_manifest_should_include_true() {
    let lua = mlua::Lua::new();
    let func = lua
        .load(r"function(path) return true end")
        .eval::<mlua::Function>()
        .unwrap();
    let manifest = Manifest {
        lua: lua.clone(),
        topics: vec![],
        should_include: Some(func),
    };
    assert!(manifest.should_include("a.txt").unwrap());
}

#[test]
fn test_manifest_should_include_false() {
    let lua = mlua::Lua::new();
    let func = lua
        .load(r"function(path) return false end")
        .eval::<mlua::Function>()
        .unwrap();
    let manifest = Manifest {
        lua: lua.clone(),
        topics: vec![],
        should_include: Some(func),
    };
    assert!(!manifest.should_include("a.txt").unwrap());
}

#[test]
fn test_manifest_should_include_rejects_non_boolean_return() {
    let lua = mlua::Lua::new();
    let func = lua
        .load(r"function(path) return 'yes' end")
        .eval::<mlua::Function>()
        .unwrap();
    let manifest = Manifest {
        lua: lua.clone(),
        topics: vec![],
        should_include: Some(func),
    };
    let result = manifest.should_include("a.txt");
    assert!(result.is_err());
    let err = result.unwrap_err().message();
    assert!(err.contains("must return a boolean"));
}

#[test]
fn test_manifest_and_topic_should_include_and_combination() {
    let lua = mlua::Lua::new();
    let manifest_func = lua
        .load(r"function(path) return path:sub(-4) ~= '.bak' end")
        .eval::<mlua::Function>()
        .unwrap();
    let topic_func = lua
        .load(r"function(path) return path:sub(1, 1) ~= '.' end")
        .eval::<mlua::Function>()
        .unwrap();
    let manifest = Manifest {
        lua: lua.clone(),
        topics: vec![],
        should_include: Some(manifest_func),
    };
    let topic = Topic {
        name: "test".to_string(),
        enabled: true,
        lua: lua.clone(),
        root: None,
        paths: vec![],
        to_repo: None,
        to_system: None,
        should_include: Some(topic_func),
    };
    // Both allow
    assert!(
        manifest.should_include("gitconfig").unwrap()
            && topic.should_include("gitconfig").unwrap()
    );
    // Manifest rejects .bak
    assert!(
        !(manifest.should_include("foo.bak").unwrap()
            && topic.should_include("foo.bak").unwrap())
    );
    // Topic rejects dotfile
    assert!(
        !(manifest.should_include(".gitconfig").unwrap()
            && topic.should_include(".gitconfig").unwrap())
    );
}

fn topic(lua: &mlua::Lua, root: Option<&str>, paths: &[&str]) -> Topic {
    Topic {
        name: "test".to_string(),
        enabled: true,
        lua: lua.clone(),
        root: root.map(str::to_owned),
        paths: paths.iter().map(|path| (*path).to_owned()).collect(),
        to_repo: None,
        to_system: None,
        should_include: None,
    }
}

fn load_error(content: &str) -> String {
    Manifest::load(prepared(), content.as_bytes()).unwrap_err().message()
}

#[test]
fn manifests_that_are_no_manifests_are_refused() {
    assert!(matches!(Manifest::load(prepared(), b"return 1"), Err(ManifestError::NotATable)));
    assert!(matches!(Manifest::load(prepared(), b"return {"), Err(ManifestError::Lua(_))));
    assert!(load_error("return { topics = { t = {} } }").contains("paths"));
    assert!(load_error("return { topics = { t = { paths = 'x' } } }").contains("paths"));
}

#[test]
fn topics_are_ordered_by_name() {
    let content = "return { topics = { b = { paths = {} }, a = { paths = {} }, c = { paths = {} } } }";
    let manifest = Manifest::load(prepared(), content.as_bytes()).unwrap();
    let names: Vec<&str> = manifest.topics.iter().map(|topic| topic.name.as_str()).collect();
    assert_eq!(names, ["a", "b", "c"]);
}

#[test]
fn invalid_roots_and_paths_are_told_apart() {
    let lua = mlua::Lua::new();
    assert!(topic(&lua, Some("a/b"), &["c", "."]).validate().is_ok());
    assert!(matches!(
        topic(&lua, Some("."), &[]).validate(),
        Err(ManifestError::DotRoot { .. })
    ));
    assert!(matches!(
        topic(&lua, None, &["a/../b"]).validate(),
        Err(ManifestError::ParentDir { .. })
    ));
    assert!(matches!(
        topic(&lua, None, &["/a"]).validate(),
        Err(ManifestError::NotRelative { .. })
    ));
    assert!(matches!(
        ensure_relative_path("/a", "label", PathKind::Path),
        Err(ManifestError::NotRelative { .. })
    ));
}

#[test]
fn roots_below_home_are_made_relative() {
    let root = |text: &str| Some(text.to_owned());
    assert_eq!(normalize_root_under_home(root("/home/u/a"), Some("/home/u")), root("a"));
    assert_eq!(normalize_root_under_home(root("/home/u"), Some("/home/u")), None);
    assert_eq!(normalize_root_under_home(root("a"), Some("/home/u")), root("a"));
    assert_eq!(normalize_root_under_home(root("/x"), None), root("/x"));
    assert_eq!(normalize_root_under_home(None, Some("/home/u")), None);
}

#[test]
fn topics_without_hooks_keep_content_and_include_all() {
    let lua = mlua::Lua::new();
    let topic = topic(&lua, None, &[]);
    assert_eq!(topic.to_repo("a", b"x\r\n").unwrap(), b"x\r\n");
    assert_eq!(topic.to_system("a", b"x").unwrap(), b"x");
    assert!(topic.should_include("a").unwrap());
    assert_eq!(captured_content(&topic, "a", b"x\r\ny").unwrap(), b"x\ny");
}

#[test]
fn contents_are_rewritten_before_line_ends_are() {
    let lua = mlua::Lua::new();
    let mut topic = topic(&lua, None, &[]);
    topic.to_repo = Some(lua.load("function(p, c) return p .. c .. '\\r\\n' end").eval().unwrap());
    topic.to_system = Some(lua.load("function(p, c) return c:upper() end").eval().unwrap());
    assert_eq!(captured_content(&topic, "a", b"x").unwrap(), b"ax\n");
    assert_eq!(topic.to_system("a", b"x").unwrap(), b"X");
}

#[test]
fn both_filters_must_include() {
    let lua = mlua::Lua::new();
    let mut topic = topic(&lua, None, &[]);
    let mut manifest = Manifest { lua: lua.clone(), topics: vec![], should_include: None };
    assert!(is_included(&manifest, &topic, "a").unwrap());
    topic.should_include = Some(lua.load("function(p) return p ~= 'b' end").eval().unwrap());
    assert!(is_included(&manifest, &topic, "a").unwrap());
    assert!(!is_included(&manifest, &topic, "b").unwrap());
    manifest.should_include = Some(lua.load("function(p) error('no') end").eval().unwrap());
    let error = is_included(&manifest, &topic, "b").unwrap_err();
    assert!(matches!(error, IncludeError::Manifest { .. }));
    assert!(error.message().contains("manifest-level should_include failed for 'b'"));
    manifest.should_include = None;
    topic.should_include = Some(lua.load("function(p) return 1 end").eval().unwrap());
    let error = is_included(&manifest, &topic, "b").unwrap_err();
    assert!(matches!(error, IncludeError::Topic { .. }));
    assert!(error.message().contains("topic-level should_include failed for 'b'"));
}

#[test]
fn paths_that_leave_are_refused_whatever_they_hold() {
    let lua = mlua::Lua::new();
    for path in ["/etc/a:b", "/a\\b", "/"] {
        assert!(matches!(
            ensure_relative_path(path, "label", PathKind::Path),
            Err(ManifestError::NotRelative { .. })
        ));
        assert!(topic(&lua, Some(path), &[]).validate().is_err());
    }
    for path in ["../../a:b", "a:b/../c\\d", ".."] {
        assert!(matches!(
            ensure_relative_path(path, "label", PathKind::Path),
            Err(ManifestError::ParentDir { .. })
        ));
        assert!(topic(&lua, None, &["ok", path]).validate().is_err());
    }
}

#[test]
fn loaded_topics_have_names_of_their_own() {
    let content = "local t = {}
        for i = 1, 9 do t['n' .. (i % 3)] = { root = '', paths = { 'p' .. i } } end
        return { topics = t }";
    let manifest = Manifest::load(prepared(), content.as_bytes()).unwrap();
    let names: Vec<&str> = manifest.topics.iter().map(|topic| topic.name.as_str()).collect();
    assert_eq!(names, ["n0", "n1", "n2"]);
    assert!(manifest.topics.iter().all(|topic| topic.root.is_none()));
    assert_eq!(manifest.topics[1].paths, ["p7"]);
}
