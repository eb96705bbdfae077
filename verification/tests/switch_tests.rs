use bridle::copy::{copy_filtered, CopyOutcome};
use bridle::errors::Error;
use bridle::manager::{ProfileManager, ProfileStore};
use bridle::model::{EntryKind, Tree, TreeEntry};
use bridle::name::ProfileName;
use bridle::settings::BridleConfig;
use bridle::sync::{copy_config_files, copy_dir_recursive, copy_resource_directories};
use bridle::tool::{InstallationStatus, ToolInfo, ToolKind};

fn path(parts: &[&str]) -> Vec<String> {
    parts.iter().map(|p| p.to_string()).collect()
}

fn file_entry(parts: &[&str], content: &str) -> TreeEntry {
    TreeEntry {
        path: path(parts),
        kind: EntryKind::File {
            bytes: content.as_bytes().to_vec(),
        },
    }
}

fn dir_entry(parts: &[&str]) -> TreeEntry {
    TreeEntry {
        path: path(parts),
        kind: EntryKind::Dir,
    }
}

fn link_entry(parts: &[&str], target: &str) -> TreeEntry {
    TreeEntry {
        path: path(parts),
        kind: EntryKind::Link {
            target: target.to_string(),
        },
    }
}

fn tool(id: &str, config_dir: &[&str]) -> ToolInfo {
    ToolInfo {
        kind: ToolKind::Unknown,
        id: id.to_string(),
        config_dir: path(config_dir),
        status: InstallationStatus::FullyInstalled,
        mcp_filename: None,
        mcp_external: false,
        resource_dirs: Vec::new(),
    }
}

fn file_content(t: &Tree, parts: &[&str]) -> Option<Vec<u8>> {
    let p = path(parts);
    for e in t {
        if e.path == p {
            if let EntryKind::File { bytes } = &e.kind {
                return Some(bytes.clone());
            }
        }
    }
    None
}

fn has_path(t: &Tree, parts: &[&str]) -> bool {
    let p = path(parts);
    t.iter().any(|e| e.path == p)
}

fn manager() -> ProfileManager {
    ProfileManager::new(path(&["root", "profiles"]))
}

fn name(s: &str) -> ProfileName {
    ProfileName::new(s).expect("valid name")
}

#[test]
fn switch_not_found_changes_nothing() {
    let m = manager();
    let t = tool("opencode", &["home", "opencode"]);
    let store: ProfileStore = Vec::new();
    let mut live: Option<Tree> = Some(vec![file_entry(&["a.txt"], "a")]);
    let mut mcp: Option<Vec<u8>> = None;
    let mut settings = BridleConfig::new_empty();
    let r = m.switch_profile(&store, &t, &name("nope"), &mut live, &mut mcp, &mut settings);
    assert!(matches!(r, Err(Error::ProfileNotFound { .. })));
    assert_eq!(
        file_content(live.as_ref().unwrap(), &["a.txt"]).unwrap(),
        b"a".to_vec()
    );
    assert!(settings.active_profile_for("opencode").is_none());
}

#[test]
fn create_then_switch_reproduces_live_contents() {
    // Snapshot a live tree, then switch back to it: byte-for-byte the same.
    let m = manager();
    let t = tool("opencode", &["home", "opencode"]);
    let mut store: ProfileStore = Vec::new();
    let original: Tree = vec![
        file_entry(&["config.txt"], "config content"),
        dir_entry(&["sub"]),
        file_entry(&["sub", "nested.txt"], "deep"),
    ];
    m.create_from_current(&mut store, &t, Some(&original), None, &name("snap"))
        .unwrap();

    let mut live: Option<Tree> = Some(vec![file_entry(&["config.txt"], "scribbled over")]);
    let mut mcp: Option<Vec<u8>> = None;
    let mut settings = BridleConfig::new_empty();
    m.switch_profile(&store, &t, &name("snap"), &mut live, &mut mcp, &mut settings)
        .unwrap();

    let restored = live.unwrap();
    assert_eq!(restored.len(), 3);
    assert_eq!(
        file_content(&restored, &["config.txt"]).unwrap(),
        b"config content".to_vec()
    );
    assert_eq!(
        file_content(&restored, &["sub", "nested.txt"]).unwrap(),
        b"deep".to_vec()
    );
    assert_eq!(settings.active_profile_for("opencode").unwrap(), "snap");
}

#[test]
fn switch_a_b_a_restores_a_exactly_and_loses_edits() {
    // Switching is replacement, not merge: a file present in A but absent
    // from B is back after A, and edits made in between are lost.
    let m = manager();
    let t = tool("opencode", &["home", "opencode"]);
    let mut store: ProfileStore = Vec::new();

    let live_a: Tree = vec![
        file_entry(&["initial.txt"], "initial"),
        file_entry(&["only-in-a.txt"], "a only"),
    ];
    m.create_from_current(&mut store, &t, Some(&live_a), None, &name("profile-a"))
        .unwrap();
    let live_b: Tree = vec![file_entry(&["initial.txt"], "different")];
    m.create_from_current(&mut store, &t, Some(&live_b), None, &name("profile-b"))
        .unwrap();

    let mut live: Option<Tree> = Some(live_a.clone());
    let mut mcp: Option<Vec<u8>> = None;
    let mut settings = BridleConfig::new_empty();

    m.switch_profile(&store, &t, &name("profile-a"), &mut live, &mut mcp, &mut settings)
        .unwrap();
    // A user edit made while A is live...
    live.as_mut().unwrap().push(file_entry(&["edited.txt"], "user edit"));

    m.switch_profile(&store, &t, &name("profile-b"), &mut live, &mut mcp, &mut settings)
        .unwrap();
    let b_now = live.as_ref().unwrap();
    assert_eq!(
        file_content(b_now, &["initial.txt"]).unwrap(),
        b"different".to_vec()
    );
    // ...is lost as soon as we switch away without a backup:
    assert!(!has_path(b_now, &["edited.txt"]));
    assert!(!has_path(b_now, &["only-in-a.txt"]));

    m.switch_profile(&store, &t, &name("profile-a"), &mut live, &mut mcp, &mut settings)
        .unwrap();
    let a_again = live.as_ref().unwrap();
    assert_eq!(
        file_content(a_again, &["initial.txt"]).unwrap(),
        b"initial".to_vec()
    );
    assert!(has_path(a_again, &["only-in-a.txt"]));
    assert!(!has_path(a_again, &["edited.txt"]));
    assert_eq!(settings.active_profile_for("opencode").unwrap(), "profile-a");
}

#[test]
fn switch_profile_restores_mcp_config() {
    let m = manager();
    let mut t = tool("test-restores-mcp", &["live_config"]);
    t.mcp_filename = Some(".mcp.json".to_string());
    t.mcp_external = true;
    let mut store: ProfileStore = Vec::new();

    let live_a: Tree = vec![file_entry(&["config.txt"], "config A")];
    let mcp_a = br#"{"servers": {"a": true}}"#.to_vec();
    m.create_from_current(&mut store, &t, Some(&live_a), Some(&mcp_a), &name("profile-a"))
        .unwrap();

    let live_b: Tree = vec![file_entry(&["config.txt"], "config B")];
    let mcp_b = br#"{"servers": {"b": true}}"#.to_vec();
    m.create_from_current(&mut store, &t, Some(&live_b), Some(&mcp_b), &name("profile-b"))
        .unwrap();

    let mut live: Option<Tree> = Some(live_b);
    let mut mcp: Option<Vec<u8>> = Some(mcp_b);
    let mut settings = BridleConfig::new_empty();
    m.switch_profile(&store, &t, &name("profile-a"), &mut live, &mut mcp, &mut settings)
        .unwrap();

    assert_eq!(
        file_content(live.as_ref().unwrap(), &["config.txt"]).unwrap(),
        b"config A".to_vec()
    );
    assert_eq!(mcp.unwrap(), br#"{"servers": {"a": true}}"#.to_vec());
    // The routed file lands at its external place, not in the live tree.
    assert!(!has_path(live.as_ref().unwrap(), &[".mcp.json"]));
}

#[test]
fn backup_contains_live_edits_verbatim() {
    let m = manager();
    let t = tool("opencode", &["home", "opencode"]);
    let live: Tree = vec![
        file_entry(&["config.txt"], "original"),
        file_entry(&["edited.txt"], "user edit"),
    ];
    let (backup_path, backup) = m.backup_current(&t, Some(&live)).unwrap();
    assert_eq!(
        file_content(&backup, &["edited.txt"]).unwrap(),
        b"user edit".to_vec()
    );
    assert_eq!(backup.len(), live.len());
    assert_eq!(backup_path[0], "root");
    assert_eq!(backup_path[1], "backups");
    assert_eq!(backup_path[2], "opencode");
    assert_eq!(backup_path.len(), 4);
}

#[test]
fn backup_without_live_directory_is_no_config_found() {
    let m = manager();
    let t = tool("opencode", &["home", "opencode"]);
    let r = m.backup_current(&t, None);
    assert!(matches!(r, Err(Error::NoConfigFound { .. })));
}

#[test]
fn copy_filtered_excludes_at_any_depth() {
    let src: Tree = vec![
        file_entry(&["keep.txt"], "keep"),
        dir_entry(&[".git"]),
        file_entry(&[".git", "HEAD"], "ref"),
        dir_entry(&["sub"]),
        dir_entry(&["sub", "node_modules"]),
        file_entry(&["sub", "node_modules", "pkg.json"], "{}"),
        file_entry(&["sub", "ok.txt"], "fine"),
        file_entry(&[".DS_Store"], "junk"),
    ];
    let (copied, outcomes) = copy_filtered(&src);
    assert!(has_path(&copied, &["keep.txt"]));
    assert!(has_path(&copied, &["sub"]));
    assert!(has_path(&copied, &["sub", "ok.txt"]));
    assert!(!has_path(&copied, &[".git"]));
    assert!(!has_path(&copied, &[".git", "HEAD"]));
    assert!(!has_path(&copied, &["sub", "node_modules"]));
    assert!(!has_path(&copied, &["sub", "node_modules", "pkg.json"]));
    assert!(!has_path(&copied, &[".DS_Store"]));
    assert_eq!(outcomes.len(), src.len());
    let skipped = outcomes
        .iter()
        .filter(|o| matches!(o, CopyOutcome::SkippedExcluded { .. }))
        .count();
    assert_eq!(skipped, 5);
    let copied_count = outcomes
        .iter()
        .filter(|o| matches!(o, CopyOutcome::Copied { .. }))
        .count();
    assert_eq!(copied_count, 3);
}

#[test]
fn copy_filtered_keeps_symlinks_as_symlinks() {
    let src: Tree = vec![
        link_entry(&["alias.json"], "../shared/config.json"),
        file_entry(&["real.txt"], "data"),
    ];
    let (copied, _) = copy_filtered(&src);
    let mut found = false;
    for e in &copied {
        if e.path == path(&["alias.json"]) {
            match &e.kind {
                EntryKind::Link { target } => {
                    assert_eq!(target, "../shared/config.json");
                    found = true;
                }
                _ => panic!("symlink was not preserved as a symlink"),
            }
        }
    }
    assert!(found);
}

#[test]
fn copy_dir_recursive_merges_source_over_destination() {
    let src: Tree = vec![
        file_entry(&["a.txt"], "new a"),
        file_entry(&["b.txt"], "b"),
    ];
    let mut dst: Tree = vec![
        file_entry(&["a.txt"], "old a"),
        file_entry(&["c.txt"], "c stays"),
    ];
    copy_dir_recursive(&src, &mut dst);
    assert_eq!(file_content(&dst, &["a.txt"]).unwrap(), b"new a".to_vec());
    assert_eq!(file_content(&dst, &["b.txt"]).unwrap(), b"b".to_vec());
    assert_eq!(file_content(&dst, &["c.txt"]).unwrap(), b"c stays".to_vec());
}

#[test]
fn copy_resource_directories_moves_declared_and_fallback_bundles() {
    let mut t = tool("opencode", &["home", "opencode"]);
    t.resource_dirs = vec!["prompts".to_string()];
    let mut live: Tree = vec![
        dir_entry(&["prompts"]),
        file_entry(&["prompts", "one.md"], "p1"),
        dir_entry(&["skills"]),
        file_entry(&["skills", "s.md"], "s"),
        file_entry(&["unrelated.txt"], "stays out"),
    ];
    let mut profile: Tree = vec![file_entry(&["existing.txt"], "kept")];
    copy_resource_directories(&t, true, &mut live, &mut profile);
    assert_eq!(file_content(&profile, &["prompts", "one.md"]).unwrap(), b"p1".to_vec());
    assert_eq!(file_content(&profile, &["skills", "s.md"]).unwrap(), b"s".to_vec());
    assert!(!has_path(&profile, &["unrelated.txt"]));
    assert!(has_path(&profile, &["existing.txt"]));
}

#[test]
fn copy_config_files_routes_mcp_both_ways() {
    let mut t = tool("opencode", &["home", "opencode"]);
    t.mcp_filename = Some(".mcp.json".to_string());
    t.mcp_external = true;

    // Toward the profile: live files plus the external MCP file.
    let mut live: Tree = vec![
        file_entry(&["config.txt"], "c"),
        file_entry(&[".DS_Store"], "junk"),
        dir_entry(&["deep"]),
    ];
    let mut profile: Tree = Vec::new();
    let mut mcp: Option<Vec<u8>> = Some(b"{\"servers\":{}}".to_vec());
    copy_config_files(&t, true, &mut live, &mut profile, &mut mcp);
    assert_eq!(file_content(&profile, &["config.txt"]).unwrap(), b"c".to_vec());
    assert_eq!(
        file_content(&profile, &[".mcp.json"]).unwrap(),
        b"{\"servers\":{}}".to_vec()
    );
    // Only top-level files move here; directories are the resource
    // synchronizer's business, and excluded names never land.
    assert!(!has_path(&profile, &["deep"]));
    assert!(!has_path(&profile, &[".DS_Store"]));

    // Toward the live tree: the stored MCP file goes back outside.
    let mut live2: Tree = Vec::new();
    let mut mcp2: Option<Vec<u8>> = None;
    copy_config_files(&t, false, &mut live2, &mut profile, &mut mcp2);
    assert_eq!(file_content(&live2, &["config.txt"]).unwrap(), b"c".to_vec());
    assert!(!has_path(&live2, &[".mcp.json"]));
    assert_eq!(mcp2.unwrap(), b"{\"servers\":{}}".to_vec());
}
