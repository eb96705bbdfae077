use bridle::errors::Error;
use bridle::manager::{ProfileManager, ProfileStore, StoreProfile};
use bridle::model::{EntryKind, Tree, TreeEntry};
use bridle::name::ProfileName;
use bridle::settings::BridleConfig;
use bridle::tool::{InstallationStatus, ToolInfo, ToolKind};

fn path(parts: &[&str]) -> Vec<String> {
    parts.iter().map(|p| p.to_string()).collect()
}

fn file_entry(parts: &[&str], content: &str) -> TreeEntry {
    TreeEntry {
        path: path(parts),
        kind: EntryKind::File {
            bytes: content.as_bytes().to_vec(),
        },
    }
}

fn dir_entry(parts: &[&str]) -> TreeEntry {
    TreeEntry {
        path: path(parts),
        kind: EntryKind::Dir,
    }
}

fn tool(id: &str, config_dir: &[&str]) -> ToolInfo {
    ToolInfo {
        kind: ToolKind::Unknown,
        id: id.to_string(),
        config_dir: path(config_dir),
        status: InstallationStatus::FullyInstalled,
        mcp_filename: None,
        mcp_external: false,
        resource_dirs: Vec::new(),
    }
}

fn tool_with_mcp(id: &str, config_dir: &[&str], mcp: &str) -> ToolInfo {
    let mut t = tool(id, config_dir);
    t.mcp_filename = Some(mcp.to_string());
    t.mcp_external = true;
    t
}

fn file_content(t: &Tree, parts: &[&str]) -> Option<Vec<u8>> {
    let p = path(parts);
    for e in t {
        if e.path == p {
            if let EntryKind::File { bytes } = &e.kind {
                return Some(bytes.clone());
            }
        }
    }
    None
}

fn manager() -> ProfileManager {
    ProfileManager::new(path(&["home", "config", "bridle", "profiles"]))
}

fn name(s: &str) -> ProfileName {
    ProfileName::new(s).expect("valid name")
}

#[test]
fn create_empty_then_exists_then_duplicate_fails() {
    let m = manager();
    let t = tool("opencode", &["home", "opencode"]);
    let mut store: ProfileStore = Vec::new();
    let n = name("work");

    assert!(!m.profile_exists(&store, &t, &n));
    let created = m.create_profile(&mut store, &t, &n);
    assert!(created.is_ok());
    assert!(m.profile_exists(&store, &t, &n));

    let again = m.create_profile(&mut store, &t, &n);
    assert!(matches!(again, Err(Error::ProfileExists { .. })));
}

#[test]
fn profile_path_is_deterministic_join() {
    let m = manager();
    let t = tool("goose", &["home", "goose"]);
    let p = m.profile_path(&t, &name("alpha"));
    assert_eq!(
        p,
        path(&["home", "config", "bridle", "profiles", "goose", "alpha"])
    );
}

#[test]
fn backups_dir_sits_beside_profiles_root() {
    let m = manager();
    assert_eq!(
        m.backups_dir(),
        path(&["home", "config", "bridle", "backups"])
    );
}

#[test]
fn list_profiles_empty_store_is_ok_and_empty() {
    let m = manager();
    let t = tool("opencode", &["home", "opencode"]);
    let store: ProfileStore = Vec::new();
    let listed = m.list_profiles(&store, &t).expect("list never fails");
    assert!(listed.is_empty());
}

#[test]
fn list_profiles_sorted_and_skips_invalid_and_other_tools() {
    let m = manager();
    let t = tool("opencode", &["home", "opencode"]);
    let mut store: ProfileStore = Vec::new();
    m.create_profile(&mut store, &t, &name("beta")).unwrap();
    m.create_profile(&mut store, &t, &name("alpha")).unwrap();
    // A directory with an invalid name, as a stray on-disk entry.
    store.push(StoreProfile {
        tool_id: "opencode".to_string(),
        name: "bad/name".to_string(),
        tree: Vec::new(),
    });
    // Another tool's profile.
    let other = tool("goose", &["home", "goose"]);
    m.create_profile(&mut store, &other, &name("gamma")).unwrap();

    let listed = m.list_profiles(&store, &t).unwrap();
    let names: Vec<&str> = listed.iter().map(|p| p.as_str()).collect();
    assert_eq!(names, vec!["alpha", "beta"]);
}

#[test]
fn delete_profile_not_found_then_removes() {
    let m = manager();
    let t = tool("opencode", &["home", "opencode"]);
    let mut store: ProfileStore = Vec::new();
    let n = name("gone");

    let missing = m.delete_profile(&mut store, &t, &n);
    assert!(matches!(missing, Err(Error::ProfileNotFound { .. })));

    m.create_profile(&mut store, &t, &n).unwrap();
    assert!(m.profile_exists(&store, &t, &n));
    m.delete_profile(&mut store, &t, &n).unwrap();
    assert!(!m.profile_exists(&store, &t, &n));
}

#[test]
fn create_from_current_captures_live_tree() {
    let m = manager();
    let t = tool("opencode", &["home", "opencode"]);
    let mut store: ProfileStore = Vec::new();
    let live: Tree = vec![
        file_entry(&["config.txt"], "config content"),
        dir_entry(&["themes"]),
        file_entry(&["themes", "dark.json"], "{}"),
    ];
    m.create_from_current(&mut store, &t, Some(&live), None, &name("snap"))
        .unwrap();
    let stored = &store[0].tree;
    assert_eq!(
        file_content(stored, &["config.txt"]).unwrap(),
        b"config content".to_vec()
    );
    assert_eq!(
        file_content(stored, &["themes", "dark.json"]).unwrap(),
        b"{}".to_vec()
    );
}

#[test]
fn create_from_current_without_live_directory_is_empty_profile() {
    let m = manager();
    let t = tool("opencode", &["home", "opencode"]);
    let mut store: ProfileStore = Vec::new();
    m.create_from_current(&mut store, &t, None, None, &name("fresh"))
        .unwrap();
    assert!(m.profile_exists(&store, &t, &name("fresh")));
    assert!(store[0].tree.is_empty());
}

#[test]
fn create_from_current_copies_mcp_config() {
    let m = manager();
    let live: Tree = vec![file_entry(&["config.txt"], "config content")];
    let mcp_bytes = br#"{"servers": {}}"#.to_vec();
    let t = tool_with_mcp("test-copies-mcp", &["live_config"], ".mcp.json");

    let n = name("test-profile");
    let mut store: ProfileStore = Vec::new();
    m.create_from_current(&mut store, &t, Some(&live), Some(&mcp_bytes), &n)
        .unwrap();

    let stored = &store[0].tree;
    assert!(file_content(stored, &["config.txt"]).is_some());
    assert!(file_content(stored, &[".mcp.json"]).is_some());
    assert_eq!(
        file_content(stored, &[".mcp.json"]).unwrap(),
        br#"{"servers": {}}"#.to_vec()
    );
}

#[test]
fn bootstrap_default_only_for_fully_installed_and_once() {
    let m = manager();
    let mut t = tool("opencode", &["home", "opencode"]);
    let mut store: ProfileStore = Vec::new();
    let live: Tree = vec![file_entry(&["config.txt"], "x")];

    t.status = InstallationStatus::BinaryOnly;
    let r = m
        .create_from_current_if_missing(&mut store, &t, Some(&live), None)
        .unwrap();
    assert!(!r);
    assert!(store.is_empty());

    t.status = InstallationStatus::FullyInstalled;
    let r = m
        .create_from_current_if_missing(&mut store, &t, Some(&live), None)
        .unwrap();
    assert!(r);
    assert!(m.profile_exists(&store, &t, &name("default")));

    let r = m
        .create_from_current_if_missing(&mut store, &t, Some(&live), None)
        .unwrap();
    assert!(!r);
    assert_eq!(store.len(), 1);
}

#[test]
fn profile_name_validation() {
    assert!(ProfileName::new("work").is_ok());
    assert!(ProfileName::new("a-b_c.1").is_ok());
    assert!(ProfileName::new("default").is_ok());
    assert!(matches!(
        ProfileName::new(""),
        Err(Error::InvalidName { .. })
    ));
    assert!(ProfileName::new(".").is_err());
    assert!(ProfileName::new("..").is_err());
    assert!(ProfileName::new("a/b").is_err());
    assert!(ProfileName::new("a\\b").is_err());
    assert!(ProfileName::new("sp ace").is_err());
    assert!(ProfileName::new("héllo").is_err());
}

#[test]
fn settings_active_profile_round_trip() {
    let mut c = BridleConfig::new_empty();
    assert!(c.active_profile_for("opencode").is_none());
    c.set_active_profile("opencode", "work");
    c.set_active_profile("goose", "default");
    assert_eq!(c.active_profile_for("opencode").unwrap(), "work");
    assert_eq!(c.active_profile_for("goose").unwrap(), "default");
    c.set_active_profile("opencode", "play");
    assert_eq!(c.active_profile_for("opencode").unwrap(), "play");
    assert_eq!(c.active_profile_for("goose").unwrap(), "default");
}

#[test]
fn create_with_resources_also_carries_bundles() {
    let m = manager();
    let mut t = tool("opencode", &["home", "opencode"]);
    t.resource_dirs = vec!["prompts".to_string()];
    let mut store: ProfileStore = Vec::new();
    let live: Tree = vec![
        file_entry(&["config.txt"], "c"),
        dir_entry(&["prompts"]),
        file_entry(&["prompts", "one.md"], "p1"),
        dir_entry(&["skills"]),
        file_entry(&["skills", "s.md"], "s"),
    ];
    m.create_from_current_with_resources(&mut store, &t, Some(&live), None, true, &name("rich"))
        .unwrap();
    let stored = &store[0].tree;
    assert!(file_content(stored, &["config.txt"]).is_some());
    assert_eq!(file_content(stored, &["prompts", "one.md"]).unwrap(), b"p1".to_vec());
    assert_eq!(file_content(stored, &["skills", "s.md"]).unwrap(), b"s".to_vec());
}
