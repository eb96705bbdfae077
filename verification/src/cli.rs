//! The command surface: what a caller can ask of the manager. The
//! binary parses its arguments into these and dispatches each onto one
//! store, switch or extraction call.

use vstd::prelude::*;

verus! {

/// A top-level command.
pub enum Commands {
    /// Show the status of all tools.
    Status,
    /// Initialize the manager's own configuration.
    Init,
    /// Manage profiles.
    Profile(ProfileCommands),
    /// Launch the interactive interface.
    Tui,
}

/// A profile subcommand.
pub enum ProfileCommands {
    /// List the available profiles.
    List,
    /// Show one profile's details.
    Show { name: String },
    /// Apply a profile: switch its contents live.
    Apply { name: String },
    /// Add a new profile.
    Add { name: String },
    /// Remove a profile.
    Remove { name: String },
}

} // verus!
