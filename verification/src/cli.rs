//! The commands of the command line.
use vstd::prelude::*;

verus! {

/// The parsed command line.
#[derive(Debug)]
pub struct Cli {
    pub command: Command,
    /// Disable ANSI colour output.
    pub no_color: bool,
}

/// The top-level commands.
#[derive(Debug)]
pub enum Command {
    /// Launch the game client.
    Launch {
        profile: Option<String>,
        version: Option<String>,
        background: bool,
        server: Option<String>,
        world: Option<String>,
        extra_args: Vec<String>,
    },
    /// Run a game server.
    Serve {
        profile: Option<String>,
        dir: String,
        version: Option<String>,
        assets: Option<String>,
        background: bool,
        extra_args: Vec<String>,
    },
    /// Manage accounts and profiles.
    Auth { sub: AuthCommand },
    /// Manage installed game versions.
    Asset { sub: AssetCommand },
}

/// The account commands.
#[derive(Debug)]
pub enum AuthCommand {
    /// List saved accounts and their profiles.
    List,
    /// Add an account; `server` selects the dedicated-server client.
    Add { server: bool },
    /// Remove a saved account.
    Remove { account: String },
    /// Set the default account.
    Default { account: String },
}

/// The version commands.
#[derive(Debug)]
pub enum AssetCommand {
    /// List installed game versions.
    List,
    /// Download and install a version, or a channel's newest build.
    Install { version: Option<String> },
    /// Stop tracking an installed version.
    Remove { version: String },
    /// Check the files of an installed version.
    Verify { version: String },
    /// Remove all versions but the newest.
    Prune,
}

/// The version to install when none is named.
pub fn install_spec(version: Option<&str>) -> (res: &str)
    ensures
        res@ == match version {
            Some(v) => v@,
            None => "release"@,
        },
{
    match version {
        Some(v) => v,
        None => "release",
    }
}

} // verus!
