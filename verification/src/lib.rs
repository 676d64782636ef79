//! Core engine of an interactive disk-usage browser: an arena of filesystem
//! entries with aggregated sizes, a deterministic view builder, cursor
//! navigation with history, and the event-driven application state machine.
//! Filesystem walking, terminal drawing and actual deletion are collaborators
//! that live outside this crate; the logic that decides what they are asked
//! to do, and what their answers mean, is verified here.

pub mod glob;
pub mod navigation;
pub mod sorted;
pub mod state;
pub mod tree;

pub use navigation::Navigation;
pub use sorted::{sorted_entries, EntryDataBundle, SortMode};
pub use state::{Action, AppState, ColumnSet, Cursor, Event, FilesystemScan, FocussedPane, KeyInput, Message, TraversalStats, TraverseError, WalkOptions, WalkResult};
pub use tree::{Entry, EntryData, EntryKind, Tree};
