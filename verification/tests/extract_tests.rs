use bridle::errors::Error;
use bridle::extract::{
    extract_mcp_servers, extract_resource_summary, extract_setting, list_files_matching,
    list_subdirs_with_file, match_pattern, DirectoryStructure,
};
use bridle::manager::{ProfileManager, ProfileStore};
use bridle::model::{EntryKind, Tree, TreeEntry};
use bridle::name::ProfileName;
use bridle::settings::BridleConfig;
use bridle::tool::{InstallationStatus, ToolInfo, ToolKind};
use bridle::ui::{key_action, next_index, prev_index, Key, Pane, UiAction};

fn path(parts: &[&str]) -> Vec<String> {
    parts.iter().map(|p| p.to_string()).collect()
}

fn file_entry(parts: &[&str], content: &str) -> TreeEntry {
    TreeEntry {
        path: path(parts),
        kind: EntryKind::File {
            bytes: content.as_bytes().to_vec(),
        },
    }
}

fn dir_entry(parts: &[&str]) -> TreeEntry {
    TreeEntry {
        path: path(parts),
        kind: EntryKind::Dir,
    }
}

fn tool_kind(kind: ToolKind, id: &str, mcp: Option<&str>) -> ToolInfo {
    ToolInfo {
        kind,
        id: id.to_string(),
        config_dir: path(&["home", id]),
        status: InstallationStatus::FullyInstalled,
        mcp_filename: mcp.map(|m| m.to_string()),
        mcp_external: false,
        resource_dirs: Vec::new(),
    }
}

#[test]
fn list_files_matching_finds_files_with_extension() {
    let dir: Tree = vec![
        file_entry(&["skill1.md"], "content"),
        file_entry(&["skill2.md"], "content"),
        file_entry(&["readme.txt"], "content"),
        dir_entry(&["subdir"]),
    ];
    let result = list_files_matching(&dir, "*.md");
    assert_eq!(result, vec!["skill1", "skill2"]);
}

#[test]
fn list_subdirs_with_file_finds_matching_dirs() {
    let dir: Tree = vec![
        dir_entry(&["cmd1"]),
        file_entry(&["cmd1", "index.md"], "content"),
        dir_entry(&["cmd2"]),
        file_entry(&["cmd2", "index.md"], "content"),
        dir_entry(&["empty"]),
        file_entry(&["file.md"], "content"),
    ];
    let result = list_subdirs_with_file(&dir, "*", "index.md");
    assert_eq!(result, vec!["cmd1", "cmd2"]);
}

#[test]
fn extract_resource_summary_handles_nonexistent_dir() {
    let base: Tree = Vec::new();
    let structure = DirectoryStructure::Flat {
        file_pattern: "*.md".to_string(),
    };
    let result = extract_resource_summary(&base, "nonexistent", &structure);
    assert!(!result.directory_exists);
    assert!(result.items.is_empty());
}

#[test]
fn extract_resource_summary_reads_flat_and_nested_shapes() {
    let base: Tree = vec![
        dir_entry(&["skills"]),
        file_entry(&["skills", "b.md"], "y"),
        file_entry(&["skills", "a.md"], "x"),
        file_entry(&["skills", "notes.txt"], "no"),
        dir_entry(&["commands"]),
        dir_entry(&["commands", "go"]),
        file_entry(&["commands", "go", "index.md"], "z"),
        dir_entry(&["commands", "hollow"]),
    ];
    let flat = DirectoryStructure::Flat {
        file_pattern: "*.md".to_string(),
    };
    let skills = extract_resource_summary(&base, "skills", &flat);
    assert!(skills.directory_exists);
    assert_eq!(skills.items, vec!["a", "b"]);

    let nested = DirectoryStructure::Nested {
        dir_pattern: "*".to_string(),
        marker_file: "index.md".to_string(),
    };
    let commands = extract_resource_summary(&base, "commands", &nested);
    assert!(commands.directory_exists);
    assert_eq!(commands.items, vec!["go"]);
}

#[test]
fn match_pattern_star_and_exact() {
    assert_eq!(match_pattern("skill.md", "*.md").unwrap(), "skill");
    assert_eq!(match_pattern("anything", "*").unwrap(), "anything");
    assert!(match_pattern("skill.txt", "*.md").is_none());
    assert_eq!(match_pattern("exact", "exact").unwrap(), "exact");
    assert!(match_pattern("exactly", "exact").is_none());
}

#[test]
fn extract_mcp_servers_lists_sorted_names() {
    let t = tool_kind(ToolKind::Aider, "aider", Some(".mcp.json"));
    let profile: Tree = vec![file_entry(
        &[".mcp.json"],
        r#"{"mcpServers": {"zeta": {}, "alpha": {}}}"#,
    )];
    let servers = extract_mcp_servers(&t, &profile).unwrap();
    assert_eq!(
        servers,
        vec![("alpha".to_string(), true), ("zeta".to_string(), true)]
    );
}

#[test]
fn extract_mcp_servers_reports_disabled_flag() {
    let t = tool_kind(ToolKind::Aider, "aider", Some(".mcp.json"));
    let profile: Tree = vec![file_entry(
        &[".mcp.json"],
        r#"{"mcpServers": {"on": {}, "off": {"disabled": true}}}"#,
    )];
    let servers = extract_mcp_servers(&t, &profile).unwrap();
    assert_eq!(
        servers,
        vec![("off".to_string(), false), ("on".to_string(), true)]
    );
}

#[test]
fn extract_mcp_servers_missing_file_is_empty() {
    let t = tool_kind(ToolKind::Aider, "aider", Some(".mcp.json"));
    let profile: Tree = vec![file_entry(&["other.txt"], "x")];
    assert!(extract_mcp_servers(&t, &profile).unwrap().is_empty());
    let t2 = tool_kind(ToolKind::Aider, "aider", None);
    assert!(extract_mcp_servers(&t2, &profile).unwrap().is_empty());
}

#[test]
fn extract_mcp_servers_corrupt_json_is_parse_failure() {
    let t = tool_kind(ToolKind::Aider, "aider", Some(".mcp.json"));
    let profile: Tree = vec![file_entry(&[".mcp.json"], "{not json at all")];
    let r = extract_mcp_servers(&t, &profile);
    assert!(matches!(r, Err(Error::ParseFailure { .. })));
}

#[test]
fn extract_mcp_servers_invalid_utf8_is_parse_failure() {
    let t = tool_kind(ToolKind::Aider, "aider", Some(".mcp.json"));
    let profile: Tree = vec![TreeEntry {
        path: path(&[".mcp.json"]),
        kind: EntryKind::File {
            bytes: vec![0xff, 0xfe, 0x00],
        },
    }];
    let r = extract_mcp_servers(&t, &profile);
    assert!(matches!(r, Err(Error::ParseFailure { .. })));
}

#[test]
fn extract_mcp_servers_goose_yaml_filters_extension_types() {
    let t = tool_kind(ToolKind::Goose, "goose", Some("config.yaml"));
    let yaml = "extensions:\n  real:\n    type: stdio\n  web:\n    type: sse\n  internal:\n    type: builtin\n";
    let profile: Tree = vec![file_entry(&["config.yaml"], yaml)];
    let servers = extract_mcp_servers(&t, &profile).unwrap();
    assert_eq!(
        servers,
        vec![("real".to_string(), true), ("web".to_string(), true)]
    );
}

#[test]
fn extract_mcp_servers_corrupt_yaml_is_parse_failure() {
    let t = tool_kind(ToolKind::Goose, "goose", Some("config.yaml"));
    let profile: Tree = vec![file_entry(&["config.yaml"], "{\nbad: [")];
    let r = extract_mcp_servers(&t, &profile);
    assert!(matches!(r, Err(Error::ParseFailure { .. })));
}

#[test]
fn extract_setting_reads_theme_and_model() {
    let t = tool_kind(ToolKind::Aider, "aider", None);
    let tree: Tree = vec![file_entry(
        &["settings.json"],
        r#"{"theme": "dark", "model": "big-one"}"#,
    )];
    assert_eq!(extract_setting(&t, &tree, "theme").unwrap(), "dark");
    assert_eq!(extract_setting(&t, &tree, "model").unwrap(), "big-one");
    assert!(extract_setting(&t, &tree, "missing").is_none());
    let empty: Tree = Vec::new();
    assert!(extract_setting(&t, &empty, "theme").is_none());
}

#[test]
fn show_profile_with_corrupt_mcp_still_extracts_the_rest() {
    let m = ProfileManager::new(path(&["root", "profiles"]));
    let t = tool_kind(ToolKind::Aider, "aider", Some(".mcp.json"));
    let mut store: ProfileStore = Vec::new();
    let live: Tree = vec![
        file_entry(&[".mcp.json"], "{broken"),
        file_entry(&["settings.json"], r#"{"theme": "dark", "model": "fast"}"#),
        dir_entry(&["skills"]),
        file_entry(&["skills", "draw.md"], "x"),
        dir_entry(&["agents"]),
        file_entry(&["agents", "helper.md"], "y"),
        dir_entry(&["plugins"]),
        file_entry(&["plugins", "extra.md"], "z"),
        dir_entry(&["commands"]),
        dir_entry(&["commands", "deploy"]),
        file_entry(&["commands", "deploy", "index.md"], "d"),
        file_entry(&["AGENTS.md"], "rules"),
    ];
    let name = ProfileName::new("broken-mcp").unwrap();
    m.create_from_current(&mut store, &t, Some(&live), None, &name)
        .unwrap();

    let settings = BridleConfig::new_empty();
    let info = m
        .show_profile(&store, &t, &name, &settings, None)
        .unwrap();
    assert_eq!(info.extraction_errors.len(), 1);
    assert!(info.extraction_errors[0].contains("MCP config"));
    assert!(info.mcp_servers.is_empty());
    assert_eq!(info.theme.unwrap(), "dark");
    assert_eq!(info.model.unwrap(), "fast");
    assert_eq!(info.skills, vec!["draw"]);
    assert_eq!(info.agents, vec!["helper"]);
    assert_eq!(info.plugins, vec!["extra"]);
    assert_eq!(info.commands, vec!["deploy"]);
    assert_eq!(info.rules_file.unwrap(), "AGENTS.md");
    assert!(!info.is_active);
    assert_eq!(info.name, "broken-mcp");
    assert_eq!(info.harness_id, "aider");
}

#[test]
fn show_profile_not_found_and_active_flag() {
    let m = ProfileManager::new(path(&["root", "profiles"]));
    let t = tool_kind(ToolKind::OpenCode, "opencode", None);
    let mut store: ProfileStore = Vec::new();
    let name = ProfileName::new("work").unwrap();

    let missing = m.show_profile(&store, &t, &name, &BridleConfig::new_empty(), None);
    assert!(matches!(missing, Err(Error::ProfileNotFound { .. })));

    m.create_from_current(&mut store, &t, None, None, &name).unwrap();
    let mut settings = BridleConfig::new_empty();
    settings.set_active_profile("opencode", "work");
    let info = m.show_profile(&store, &t, &name, &settings, None).unwrap();
    assert!(info.is_active);
    assert!(info.extraction_errors.is_empty());
}

#[test]
fn show_profile_active_reads_resources_from_live_tree() {
    let m = ProfileManager::new(path(&["root", "profiles"]));
    let t = tool_kind(ToolKind::OpenCode, "opencode", None);
    let mut store: ProfileStore = Vec::new();
    let stored: Tree = vec![
        dir_entry(&["skills"]),
        file_entry(&["skills", "old.md"], "o"),
    ];
    let name = ProfileName::new("work").unwrap();
    m.create_from_current(&mut store, &t, Some(&stored), None, &name)
        .unwrap();

    // Edits made since the switch show up in the live tree only.
    let live: Tree = vec![
        dir_entry(&["skills"]),
        file_entry(&["skills", "old.md"], "o"),
        file_entry(&["skills", "brand-new.md"], "n"),
    ];
    let mut settings = BridleConfig::new_empty();
    settings.set_active_profile("opencode", "work");
    let info = m
        .show_profile(&store, &t, &name, &settings, Some(&live))
        .unwrap();
    assert_eq!(info.skills, vec!["brand-new", "old"]);

    // An inactive profile reads from its stored copy instead.
    let mut other = BridleConfig::new_empty();
    other.set_active_profile("opencode", "something-else");
    let info2 = m
        .show_profile(&store, &t, &name, &other, Some(&live))
        .unwrap();
    assert_eq!(info2.skills, vec!["old"]);
}

#[test]
fn ui_key_actions_follow_the_key_map() {
    assert_eq!(key_action(Key::Char('q'), Pane::Harnesses), UiAction::Quit);
    assert_eq!(key_action(Key::Esc, Pane::Profiles), UiAction::Quit);
    assert_eq!(key_action(Key::Tab, Pane::Harnesses), UiAction::SwitchPane);
    assert_eq!(key_action(Key::Up, Pane::Harnesses), UiAction::MoveUp);
    assert_eq!(key_action(Key::Char('j'), Pane::Profiles), UiAction::MoveDown);
    assert_eq!(
        key_action(Key::Enter, Pane::Profiles),
        UiAction::SwitchToSelected
    );
    assert_eq!(key_action(Key::Enter, Pane::Harnesses), UiAction::Idle);
    assert_eq!(
        key_action(Key::Char('d'), Pane::Profiles),
        UiAction::DeleteSelected
    );
    assert_eq!(key_action(Key::Char('d'), Pane::Harnesses), UiAction::Idle);
    assert_eq!(
        key_action(Key::Char('e'), Pane::Profiles),
        UiAction::EditSelected
    );
    assert_eq!(key_action(Key::Char('r'), Pane::Profiles), UiAction::Refresh);
    assert_eq!(key_action(Key::Char('n'), Pane::Profiles), UiAction::NewProfile);
    assert_eq!(key_action(Key::Char('x'), Pane::Profiles), UiAction::Idle);
}

#[test]
fn ui_selection_wraps_both_ways() {
    assert_eq!(next_index(Some(0), 3), 1);
    assert_eq!(next_index(Some(2), 3), 0);
    assert_eq!(next_index(None, 3), 0);
    assert_eq!(prev_index(Some(0), 3), 2);
    assert_eq!(prev_index(Some(2), 3), 1);
    assert_eq!(prev_index(None, 3), 0);
}

#[test]
fn error_messages_name_the_trouble() {
    let e = Error::ProfileNotFound {
        name: "ghost".to_string(),
    };
    assert_eq!(e.message(), "profile not found: ghost");
    let e = Error::ProfileExists {
        name: "dup".to_string(),
    };
    assert_eq!(e.message(), "profile already exists: dup");
    let e = Error::InvalidName {
        name: "a/b".to_string(),
    };
    assert_eq!(e.message(), "invalid profile name: a/b");
}
