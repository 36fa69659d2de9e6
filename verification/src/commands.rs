//! The commands of the program.
use vstd::prelude::*;

verus! {

/// What the program is asked to do.
#[derive(Debug)]
pub enum Commands {
    /// Generate tile stores from the database (full rebuild).
    Generate,
    /// Watch for changes and update tile stores incrementally.
    Watch,
    /// Generate, perhaps publish, then watch for changes.
    Run { skip_generate: bool },
    /// Generate, then serve tiles and watch for changes.
    Serve { skip_generate: bool },
    /// Describe a tile store.
    Inspect { path: String },
    /// Check the configuration against the database.
    Validate,
    /// Compare two tile stores.
    Diff { path_a: String, path_b: String },
    /// Convert a tile store into an archive.
    Export { input: String, output: String },
}

impl Commands {
    /// Short name used for logging and the startup metric.
    pub fn name(&self) -> (name: &'static str)
        ensures
            name@ == (match self {
                Commands::Generate => "generate"@,
                Commands::Watch => "watch"@,
                Commands::Run { skip_generate: _ } => "run"@,
                Commands::Serve { skip_generate: _ } => "serve"@,
                Commands::Inspect { path: _ } => "inspect"@,
                Commands::Validate => "validate"@,
                Commands::Diff { path_a: _, path_b: _ } => "diff"@,
                Commands::Export { input: _, output: _ } => "export"@,
            }),
    {
        match self {
            Commands::Generate => "generate",
            Commands::Watch => "watch",
            Commands::Run { skip_generate: _ } => "run",
            Commands::Serve { skip_generate: _ } => "serve",
            Commands::Inspect { path: _ } => "inspect",
            Commands::Validate => "validate",
            Commands::Diff { path_a: _, path_b: _ } => "diff",
            Commands::Export { input: _, output: _ } => "export",
        }
    }

    /// Whether this command runs a full generation.
    pub fn generates(&self) -> (generates: bool)
        ensures
            generates == (match self {
                Commands::Generate => true,
                Commands::Run { skip_generate } => !*skip_generate,
                Commands::Serve { skip_generate } => !*skip_generate,
                _ => false,
            }),
    {
        match self {
            Commands::Generate => true,
            Commands::Run { skip_generate } => !*skip_generate,
            Commands::Serve { skip_generate } => !*skip_generate,
            _ => false,
        }
    }
}

} // verus!
