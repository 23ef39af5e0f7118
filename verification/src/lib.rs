//! An in-memory file index with verified search, path and bookkeeping logic.
pub mod text;
pub mod path;
pub mod entry;
pub mod matchers;
pub mod search;
pub mod mounts;
pub mod crawler;
pub mod index;
pub mod watcher;
pub mod icons;

pub use crawler::{
    ChildEntry, Crawler, CrawlerConfig, CrawlStats, CrawlVisit, DirStep, DEFAULT_EXCLUDED_ROOTS,
};
pub use entry::{
    CompactEntry, DirectoryStore, FileEntry, FileMetadata, FLAG_IS_DIR, FLAG_IS_REMOVABLE,
    FLAG_IS_SYMLINK,
};
pub use index::Database;
pub use mounts::{MountEntry, MountTable, REAL_FS_TYPES, VIRTUAL_FS_TYPES};
pub use search::{FileCategory, SearchEngine, SearchQuery, SearchResult};
pub use watcher::{WatchAction, WatchBatcher, WatchEventKind, WatchSignal, WatchStep, WatcherHealth};
pub use icons::get_icon_name;
pub mod tracking;
