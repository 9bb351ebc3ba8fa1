//! Whether a stack has anything to bring to the remote.

use crate::submit::analysis::{segment_has_name, stack_has_name};
use crate::types::{BookmarkSegmentView, BranchStack, BranchStackView};
use vstd::prelude::*;

verus! {

/// The options of a request to bring the stack in step with the remote.
#[derive(Debug, Clone, Copy)]
pub struct SyncOptions<'a> {
    /// Show what would be done and change nothing.
    pub dry_run: bool,
    /// Show the plan and ask before it runs.
    pub confirm: bool,
    /// Act only if the stack holds this bookmark.
    pub stack: Option<&'a str>,
}

/// Some bookmark of the segment has to be pushed.
pub open spec fn segment_needs_sync(segment: BookmarkSegmentView) -> bool {
    exists|i: int| 0 <= i < segment.bookmarks.len() && (#[trigger] segment.bookmarks[i]).needs_push()
}

/// Some bookmark of the stack has to be pushed.
pub open spec fn needs_sync(stack: BranchStackView) -> bool {
    exists|i: int| 0 <= i < stack.segments.len() && segment_needs_sync(#[trigger] stack.segments[i])
}

/// Whether some bookmark of the stack has to be pushed.
pub fn stack_needs_sync(stack: &BranchStack) -> (r: bool)
    ensures
        r == needs_sync(stack@),
{
    let ghost segments = stack@.segments;
    let mut i: usize = 0;
    while i < stack.segments.len()
        invariant
            segments == stack@.segments,
            i <= stack.segments.len(),
            forall|k: int| 0 <= k < i ==> !segment_needs_sync(#[trigger] segments[k]),
        decreases stack.segments.len() - i,
    {
        let segment = &stack.segments[i];
        assert(segment@ == segments[i as int]);
        let mut j: usize = 0;
        while j < segment.bookmarks.len()
            invariant
                segments == stack@.segments,
                i < stack.segments.len(),
                segment@ == segments[i as int],
                j <= segment.bookmarks.len(),
                forall|k: int| 0 <= k < j ==> !(#[trigger] segment@.bookmarks[k]).needs_push(),
            decreases segment.bookmarks.len() - j,
        {
            assert(segment@.bookmarks[j as int] == segment.bookmarks@[j as int]@);
            if segment.bookmarks[j].needs_push() {
                assert(segment_needs_sync(segments[i as int]));
                return true;
            }
            j += 1;
        }
        i += 1;
    }
    false
}

/// Whether a bookmark called `name` points at a tip of the stack.
pub fn stack_has_bookmark(stack: &BranchStack, name: &str) -> (r: bool)
    ensures
        r == stack_has_name(stack@.segments, name@),
{
    let ghost segments = stack@.segments;
    let mut i: usize = 0;
    while i < stack.segments.len()
        invariant
            segments == stack@.segments,
            i <= stack.segments.len(),
            forall|k: int| 0 <= k < i ==> !(#[trigger] segments[k]).has_name(name@),
        decreases stack.segments.len() - i,
    {
        assert(stack.segments@[i as int]@ == segments[i as int]);
        if segment_has_name(&stack.segments[i], name) {
            return true;
        }
        i += 1;
    }
    false
}

/// Whether a request to bring the stack in step with the remote has work
/// to do: the stack must hold the bookmark that the request names, if it
/// names one, and some bookmark of the stack must need a push.
pub fn sync_applies(stack: &BranchStack, options: &SyncOptions<'_>) -> (r: bool)
    ensures
        r == ((options.stack matches Some(name) ==> stack_has_name(stack@.segments, name@))
            && needs_sync(stack@)),
{
    if let Some(name) = options.stack {
        if !stack_has_bookmark(stack, name) {
            return false;
        }
    }
    stack_needs_sync(stack)
}

} // verus!
