//! The command-line arguments of the optimizer, as plain values (the argument
//! parser that fills them lives in the application).
use vstd::prelude::*;

verus! {

/// `eve-remap` invocation: one subcommand.
#[derive(Debug)]
pub struct Cli {
    pub command: Commands,
}

/// The subcommands.
#[derive(Debug)]
pub enum Commands {
    /// Optimize character's skill training queue across remap epochs.
    Optimize(OptimizeArgs),
    /// Authenticate with EVE Online SSO and save tokens locally.
    Login(LoginArgs),
    /// Remove a previously saved account by character name or ID.
    Logout(LogoutArgs),
    /// List all saved characters and their token status.
    Accounts,
}

/// Arguments of `optimize`.
#[derive(Debug)]
pub struct OptimizeArgs {
    /// Saved character (name or ID) whose queue and attributes are fetched from ESI.
    pub character: Option<String>,
    /// Queue file path, `-` for stdin.
    pub queue: Option<String>,
    /// Base attributes `PER:MEM:WIL:INT:CHA` (without implants).
    pub attributes: Option<String>,
    /// Output JSON instead of a table.
    pub json: bool,
    /// Bonus neural remaps available.
    pub bonus_remaps: Option<u32>,
    /// When the normal remap becomes available, as a duration such as `30d`.
    pub remap_available: Option<String>,
    /// Implant bonuses `PER:MEM:WIL:INT:CHA` that persist across remaps.
    pub implant_bonuses: Option<String>,
    /// Where to write the optimized queue, `-` for stdout.
    pub queue_out: Option<String>,
}

/// Arguments of `login`.
#[derive(Debug)]
pub struct LoginArgs {
    /// EVE Online SSO client ID.
    pub client_id: String,
    /// ESI scopes to request.
    pub scopes: Vec<String>,
    /// Port for the local OAuth callback listener.
    pub port: Option<u16>,
    /// Use plain HTTP for the callback instead of HTTPS.
    pub http_callback: bool,
}

/// Arguments of `logout`.
#[derive(Debug)]
pub struct LogoutArgs {
    /// Character name or ID; all accounts when absent.
    pub name: Option<String>,
}

} // verus!
