//! The command surface: how a snapshot is located and which check runs.

use vstd::prelude::*;

verus! {

/// Where and how to load the metadata snapshot of a workspace.
pub struct TreeArgs {
    /// Cargo manifest path or directory; a directory means its
    /// `Cargo.toml`.
    pub manifest_path: String,
    /// Whether to only consider workspace crates (no resolved dependency
    /// graph is loaded then).
    pub workspace: bool,
    /// Whether to load the snapshot in offline mode.
    pub offline: bool,
}

/// The root command: runs the lint check with the selected verbosity.
pub struct Command {
    /// The lint command to run.
    pub lint: crate::lint::LintCmd,
    /// Whether to keep informational output quiet.
    pub quiet: bool,
}

impl Command {
    /// Runs the selected check on the snapshot.
    pub fn run(&self, meta: &crate::model::Metadata) -> (r: crate::lint::LintOutcome)
        requires
            meta.wf(),
        ensures
            crate::lint::lint_post(self.lint, *meta, r),
    {
        self.lint.run(meta)
    }
}

} // verus!
