//! Incremental project scanning, group expansion and context rendering.
//!
//! - `models`: files' metadata, the sorted metadata cache, group and project statistics.
//! - `scan`: which files a rescan must analyse, their analysis, and the merged cache.
//! - `deps`: import literals resolved to project files through an alias table.
//! - `groups` and `sync`: a group's files and statistics, and its cross-sync closure.
//! - `tree`, `render` and `context`: the project tree and the exported context text.
//! - `export`: the snapshot and the exports written on every sync.
//! - `text`, `lines`: character-level helpers; `outside`: the calls into other crates.
pub mod context;
pub mod deps;
pub mod export;
pub mod groups;
pub mod lines;
pub mod models;
pub mod outside;
pub mod render;
pub mod scan;
pub mod sync;
pub mod text;
pub mod tree;
