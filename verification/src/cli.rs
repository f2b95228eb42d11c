//! The command line: subcommands and their arguments.
use vstd::prelude::*;

verus! {

/// A parsed command line.
#[derive(Debug)]
pub struct Cli {
    pub command: Command,
}

/// The subcommands.
#[derive(Debug)]
pub enum Command {
    /// Install the post-checkout hook and validate local CAMP configuration.
    Init(InitArgs),
    /// Smart checkout that avoids branch collisions on the mesh.
    Checkout(CheckoutArgs),
    /// Show local git state alongside discovered mesh peers.
    Status(StatusArgs),
    /// Bring this agent online by delegating to `camp up`.
    Up(UpArgs),
    /// Mesh-guarded `git commit`: verifies branch is uncontested before committing.
    Commit(CommitArgs),
    /// Show the persisted checkout traces of this repository.
    Trace(TraceArgs),
}

/// Arguments of `init`.
#[derive(Debug)]
pub struct InitArgs {
    pub config: String,
    pub json: bool,
}

/// Arguments of `checkout`.
#[derive(Debug)]
pub struct CheckoutArgs {
    pub branch: String,
    pub config: String,
    pub claim_settle_ms: Option<u64>,
    pub force: bool,
    pub json: bool,
}

/// Arguments of `status`.
#[derive(Debug)]
pub struct StatusArgs {
    pub config: String,
    pub json: bool,
}

/// Arguments of `up`.
#[derive(Debug)]
pub struct UpArgs {
    pub config: String,
    pub json: bool,
}

/// Arguments of `commit`.
#[derive(Debug)]
pub struct CommitArgs {
    pub config: String,
    pub json: bool,
    pub passthrough: Vec<String>,
}

/// Arguments of `trace`.
#[derive(Debug)]
pub struct TraceArgs {
    pub history: bool,
    pub limit: Option<usize>,
    pub json: bool,
}

impl Cli {
    /// Whether the subcommand asked for JSON output.
    pub fn json_output(&self) -> (r: bool)
        ensures
            r == (match self.command {
                Command::Init(a) => a.json,
                Command::Checkout(a) => a.json,
                Command::Status(a) => a.json,
                Command::Up(a) => a.json,
                Command::Commit(a) => a.json,
                Command::Trace(a) => a.json,
            }),
    {
        match &self.command {
            Command::Init(args) => args.json,
            Command::Checkout(args) => args.json,
            Command::Status(args) => args.json,
            Command::Up(args) => args.json,
            Command::Commit(args) => args.json,
            Command::Trace(args) => args.json,
        }
    }
}

} // verus!
