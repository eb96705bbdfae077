//! The tool (harness) capability record.
//!
//! An external locator detects which third-party tools are installed
//! and where their configuration lives; the manager only reads the
//! record it supplies: a stable identifier, the live configuration
//! directory, installation status, the optional MCP configuration file
//! name, and declared resource-bundle directory names.

use vstd::prelude::*;

verus! {

/// The tools the locator recognizes, plus a fallback.
#[derive(Clone, Copy, PartialEq, Eq, Structural, Debug)]
pub enum ToolKind {
    Aider,
    OpenCode,
    Goose,
    Unknown,
}

/// How far a tool is installed on this machine.
#[derive(Clone, Copy, PartialEq, Eq, Structural, Debug)]
pub enum InstallationStatus {
    /// Binary and configuration both present.
    FullyInstalled,
    /// Only the binary was found.
    BinaryOnly,
    /// Only a configuration directory was found.
    ConfigOnly,
    /// Neither was found.
    NotInstalled,
}

/// The stable identifier string of each tool kind.
pub open spec fn kind_id(k: ToolKind) -> Seq<char> {
    match k {
        ToolKind::Aider => "aider"@,
        ToolKind::OpenCode => "opencode"@,
        ToolKind::Goose => "goose"@,
        ToolKind::Unknown => "unknown"@,
    }
}

/// Maps a tool kind to its stable identifier.
pub fn harness_id(kind: ToolKind) -> (r: &'static str)
    ensures
        r@ == kind_id(kind),
{
    match kind {
        ToolKind::Aider => "aider",
        ToolKind::OpenCode => "opencode",
        ToolKind::Goose => "goose",
        ToolKind::Unknown => "unknown",
    }
}

/// Everything the manager reads of a tool. Supplied by the caller,
/// which obtains it from the external locator (or, in tests, makes one
/// up).
pub struct ToolInfo {
    /// Which known tool this is, or the fallback.
    pub kind: ToolKind,
    /// Stable identifier; the profile directory for this tool sits
    /// under a directory of this name.
    pub id: String,
    /// The live configuration directory, as absolute path components.
    pub config_dir: Vec<String>,
    /// Installation status, as the locator reported it.
    pub status: InstallationStatus,
    /// Name of the tool's MCP configuration file, if it declares one.
    pub mcp_filename: Option<String>,
    /// Whether that file lives outside the live configuration
    /// directory (some tools keep it elsewhere).
    pub mcp_external: bool,
    /// Declared resource-bundle directory names (agents, commands,
    /// skills and the like).
    pub resource_dirs: Vec<String>,
}

/// The conventional resource-directory names tried when a tool does
/// not declare its own bundles.
pub open spec fn fallback_names() -> Seq<Seq<char>> {
    seq!["agent"@, "agents"@, "command"@, "commands"@, "skill"@, "skills"@, "recipes"@]
}

/// The conventional resource-directory names tried when a tool does
/// not declare its own bundles.
pub fn fallback_resource_dirs() -> (r: Vec<String>)
    ensures
        r.deep_view() == fallback_names(),
{
    let mut v: Vec<String> = Vec::new();
    v.push("agent".to_owned());
    v.push("agents".to_owned());
    v.push("command".to_owned());
    v.push("commands".to_owned());
    v.push("skill".to_owned());
    v.push("skills".to_owned());
    v.push("recipes".to_owned());
    proof {
        assert(v.deep_view() =~= fallback_names());
    }
    v
}

} // verus!
