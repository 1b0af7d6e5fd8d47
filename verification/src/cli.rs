//! The command-line surface: which command was asked for, with which
//! arguments. The surrounding program parses the real command line and
//! hands these plain values in.

use vstd::prelude::*;

verus! {

/// The parsed command line.
pub struct Cli {
    /// The command to run.
    pub command: Command,
}

/// The commands the program offers.
pub enum Command {
    /// Starts the interactive loop.
    Repl,
    /// Opens an existing journal in the editor.
    Open(OpenArgs),
    /// Creates a new journal.
    Create(CreateArgs),
    /// Prints a journal.
    Print(OpenArgs),
    /// Lists journals.
    List(ListArgs),
    /// Removes a journal or workspace.
    Remove(RemoveArgs),
    /// Renames a journal or workspace.
    Rename(RenameArgs),
    /// Searches in journals; across all workspaces by default.
    Search(SearchArgs),
    /// Exports journals.
    Export(ExportArgs),
}

/// Arguments for opening or printing a journal.
pub struct OpenArgs {
    /// Name of the journal to open; may be part of the name.
    pub name: String,
    /// Optional workspace to use, else the default workspace.
    pub workspace: Option<String>,
    /// Optional key for decryption.
    pub key: Option<String>,
}

/// Arguments for creating a journal.
pub struct CreateArgs {
    /// Name of the journal to create.
    pub name: String,
    /// Optional workspace to use, else the default workspace.
    pub workspace: Option<String>,
    /// Optional key; when present the journal is encrypted under it.
    pub key: Option<String>,
}

/// Arguments for removing a journal or workspace.
pub struct RemoveArgs {
    /// The name of the journal to remove.
    pub name: String,
    /// Optional workspace to use, else the default workspace.
    pub workspace: Option<String>,
    /// Remove `name` as a workspace instead of a journal.
    pub remove_workspace: bool,
}

/// Arguments for renaming a journal or workspace.
pub struct RenameArgs {
    /// The current name.
    pub old: String,
    /// The new name.
    pub new: String,
    /// Optional workspace to use, else the default workspace.
    pub workspace: Option<String>,
    /// Rename `old` as a workspace instead of a journal.
    pub rename_workspace: bool,
}

/// Arguments for listing journals.
pub struct ListArgs {
    /// List journals across all workspaces.
    pub all: bool,
    /// Optional workspace to use, else the default workspace.
    pub workspace: Option<String>,
}

/// Arguments for searching journals.
pub struct SearchArgs {
    /// The pattern to search for.
    pub pattern: String,
    /// Ignore case when searching.
    pub case_insensitive: bool,
    /// Optional workspace to search, else all workspaces.
    pub workspace: Option<String>,
    /// Optional key; without it encrypted journals are skipped.
    pub key: Option<String>,
}

/// Arguments for exporting journals.
pub struct ExportArgs {
    /// The export target to use.
    pub target: String,
    /// Optional output directory; defaults to the working directory.
    pub dir: Option<String>,
    /// Optional key; without it encrypted journals are skipped.
    pub key: Option<String>,
}

} // verus!
