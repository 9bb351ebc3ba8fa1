//! What the engine decides about the repository it works in.

pub mod facts;
pub mod remote;
pub mod sync;

pub use facts::{
    branch_of_remote_head, display_description, fallback_default_branch, first_line, short_id,
    sync_facts, trunk_alias, RemoteTarget,
};
pub use remote::select_remote;
pub use sync::{stack_has_bookmark, stack_needs_sync, sync_applies, SyncOptions};
