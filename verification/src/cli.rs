//! The command-line options.
use vstd::prelude::*;

verus! {

/// The command-line options.
#[derive(Debug, Clone, Copy, PartialEq, Eq, Structural)]
pub struct Args {
    /// Show all files, not just dirty ones.
    pub show_all: bool,
    /// Show full file paths (alias for --all).
    pub full: bool,
    /// Print the tree and exit (non-interactive mode).
    pub print_only: bool,
    /// Interactive mode (the default).
    pub interactive: bool,
}

impl Args {
    /// Whether to show all files.
    pub fn show_all_files(&self) -> (r: bool)
        ensures
            r == (self.show_all || self.full),
    {
        self.show_all || self.full
    }

    /// Whether to run in interactive mode.
    pub fn is_interactive(&self) -> (r: bool)
        ensures
            r == !self.print_only,
    {
        !self.print_only
    }
}

} // verus!
