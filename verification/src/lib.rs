//! Stacked pull requests for a linear chain of bookmarks: analysis of the
//! stack, dependency-aware planning, and the bookkeeping of execution.

pub mod error;
pub mod graph;
pub mod name_map;
pub mod repo;
pub mod submit;
pub mod text;
pub mod tracking;
pub mod types;

pub use error::Error;
pub use types::{
    Bookmark, BookmarkSegment, BranchStack, ChangeGraph, GitRemote, LogEntry,
    NarrowedBookmarkSegment, Platform, PlatformConfig, PrComment, PullRequest,
};
