//! Two-sided directory comparison: aligned trees, staged file equality,
//! status propagation and the navigation state that sits on top of them.

pub mod node;
pub mod oracle;
pub mod status;
pub mod order;
pub mod lookup;
pub mod compare;
pub mod rows;
pub mod expansion;
pub mod app;
pub mod format;
pub mod terminal;
pub mod diff;

pub use node::{FileNode, FileStatus};
pub use compare::{ContentCheck, DirectoryComparison, EntryMeta, PendingComparison, ScanEntry, ScannedTree};
pub use rows::{FilterMode, Row};
pub use app::{Action, App, AppMode, Area, CopyInfo, DirStats, Key, KeyInput};
pub use terminal::{ProgressCallback, TerminalState};
