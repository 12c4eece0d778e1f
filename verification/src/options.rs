//! Option types of the command-line front end and the base configuration
//! file, and their assembly into one option record.

use vstd::prelude::*;

verus! {

/// What to inspect.
#[derive(Debug)]
pub enum InspectSub {
    /// Evaluate and print the plan at `path`.
    Plan { path: String },
    /// Inspect one package.
    Package { package: String },
}

/// The front end's subcommands.
#[derive(Debug)]
pub enum Subcommand {
    /// Link a package and its dependencies (or unlink with `reverse`).
    Link { reverse: bool, package: String },
    /// Build a package.
    Build { package: String },
    /// Start a shell in a package's environment.
    Shell { package: String },
    /// Inspect a package or a plan.
    Inspect { subcommand: InspectSub },
    /// Remove unlinked packages from the store.
    GC,
    /// Verify store contents and re-link partially linked packages.
    Repair,
}

/// Parsed command-line options.
#[derive(Debug)]
pub struct CliOptions {
    /// Make no changes to the system.
    pub dry_run: bool,
    pub subcommand: Subcommand,
}

/// Options read from the base configuration file.
#[derive(Debug)]
pub struct BaseOptions {
    /// Root directory the engine works under.
    pub root: String,
    /// Whether builds run inside the sandbox.
    pub sandbox: bool,
}

impl Default for BaseOptions {
    /// Without a configuration file the engine works under `/` with the
    /// sandbox enabled.
    fn default() -> (r: Self)
        ensures
            r.root@ == "/"@,
            r.sandbox == true,
    {
        BaseOptions { root: "/".to_owned(), sandbox: true }
    }
}

/// The combined options of one invocation.
#[derive(Debug)]
pub struct Options {
    pub cli: CliOptions,
    pub base: BaseOptions,
}

/// Combine parsed command-line options with the configuration file's
/// options, falling back to the defaults when no file was found.
pub fn get_options(cli: CliOptions, base: Option<BaseOptions>) -> (r: Options)
    ensures
        r.cli == cli,
        match base {
            Some(b) => r.base == b,
            None => r.base.root@ == "/"@ && r.base.sandbox == true,
        },
{
    let base = match base {
        Some(b) => b,
        None => BaseOptions::default(),
    };
    Options { cli, base }
}

} // verus!
