//! The shapes of the tool's command-line arguments, as plain data. The
//! command-line grammar itself (parsing `argv`) belongs to the
//! surrounding tool; the rest of the library decides from these values.

use vstd::prelude::*;

verus! {

/// The parsed command line: the parent shell's process id and the action.
pub struct Arguments {
    /// process id of parent shell
    pub pid: u32,
    /// subcommand
    pub action: Action,
}

/// The subcommand asked for.
pub enum Action {
    /// navigate to path and add current path to the stack
    Push(PushArgs),
    /// navigate to last entry in stack and remove it
    Pop(PopArgs),
    /// show stack
    Stack(StackArgs),
    /// navigate to bookmark and add current path to the stack
    Bookmark(BookmarkArgs),
    /// display current configuration
    Configuration,
}

/// Arguments of the `push` action.
pub struct PushArgs {
    /// show stack
    pub show_stack: Option<bool>,
    /// change to the path given by these words
    pub path: Option<Vec<String>>,
}

/// Arguments of the `pop` action.
pub struct PopArgs {
    /// pop several entries at once
    pub action: Option<PopAction>,
    /// show stack
    pub show_stack: Option<bool>,
    /// pop the given number of entries
    pub num_entries: Option<usize>,
}

/// Bulk variant of `pop`.
pub enum PopAction {
    /// pop all entries and move to the first entry of the stack
    All,
}

/// Arguments of the `stack` action.
pub struct StackArgs {
    /// hide entry numbers
    pub hide_numbers: Option<bool>,
    /// stack subcommand
    pub stack_action: Option<StackAction>,
}

/// Subcommands of the `stack` action.
pub enum StackAction {
    /// clear the stack
    Clear,
}

/// Arguments of the `bookmark` action.
pub struct BookmarkArgs {
    /// bookmark subcommand
    pub bookmark_action: Option<BookmarkAction>,
    /// name of the bookmark to move to
    pub name: Option<String>,
}

/// Subcommands of the `bookmark` action.
pub enum BookmarkAction {
    /// list all bookmarks
    List,
    /// add a bookmark by name and path
    Add(BookmarkSubArgs),
    /// remove a bookmark by name
    Remove(BookmarkSubArgs),
    /// remove bookmarks with invalid paths
    Clean,
    /// print bookmark names for shell completions
    Completions,
}

/// Name and path arguments of `bookmark add` / `bookmark remove`.
pub struct BookmarkSubArgs {
    /// name of the bookmark to add or remove
    pub name: String,
    /// path of the bookmark to add, as the words given on the command line
    pub path: Vec<String>,
}

/// Arguments of the `configuration` action.
pub struct ConfigArgs {
    /// convert styles to ansi escape sequences
    pub convert: Option<bool>,
}

} // verus!
