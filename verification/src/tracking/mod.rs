//! Which bookmarks are submitted, and which pull requests are known for
//! them: the state that lives beside the repository.

pub mod pr_cache;
pub mod select;
pub mod state;

pub use pr_cache::{pr_cache_file_text, CachedPr, PrCache, PR_CACHE_VERSION};
pub use select::{
    bookmarks_to_track, bookmarks_to_untrack, judge_for_tracking, judge_for_untracking,
    TrackOptions, UntrackOptions, Verdict,
};
pub use state::{tracking_file_text, TrackedBookmark, TrackingState, TRACKING_VERSION};
