//! An incremental index of a file-system tree: interned names, a slab of
//! node records, an inverted name index, and the rules that turn change
//! notifications into re-scan work.

pub mod arena;
pub mod cache_line;
pub mod clock;
pub mod event_flag;
pub mod fs_entry;
pub mod index_set;
pub mod lex;
pub mod memmem;
pub mod merge;
pub mod name_index;
pub mod namepool;
pub mod node;
pub mod persist;
pub mod search;
pub mod search_cache;
pub mod span;
pub mod tui;
pub mod walk;
pub mod watcher;
