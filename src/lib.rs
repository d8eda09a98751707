pub mod text;
pub mod classify;
pub mod scan;
pub mod sync;
pub mod laws;

pub use classify::{classify_lowered, Analyzer, MediaData};
pub use scan::{find_all_files, find_all_files_aux, Entry, FileEntry, ScannedFile};
pub use sync::{create_links, reconcile, remove_empty_directories, remove_hardlinks, Action, Link};
