//! The bookmarks that were chosen for submission.

use crate::text::{clone_optional_text, join, same_text};
use vstd::prelude::*;

verus! {

/// The version of the tracking file.
pub const TRACKING_VERSION: u32 = 1;

/// The comment at the head of the tracking file.
pub const TRACKING_HEADER: &'static str =
    "# ryu tracking metadata\n# Auto-generated - manual edits may be overwritten\n\n";

/// A bookmark that was chosen for submission.
#[derive(Debug, PartialEq, Eq)]
pub struct TrackedBookmark {
    /// Name of the bookmark.
    pub name: String,
    /// Change that the bookmark pointed at when it was tracked.
    pub change_id: String,
    /// The remote to submit to, where one was chosen.
    pub remote: Option<String>,
    /// When the bookmark was tracked, in milliseconds since the epoch.
    pub tracked_at: i64,
}

/// The view of a [`TrackedBookmark`].
pub struct TrackedBookmarkView {
    pub name: Seq<char>,
    pub change_id: Seq<char>,
    pub remote: Option<Seq<char>>,
    pub tracked_at: i64,
}

impl View for TrackedBookmark {
    type V = TrackedBookmarkView;

    open spec fn view(&self) -> TrackedBookmarkView {
        TrackedBookmarkView {
            name: self.name@,
            change_id: self.change_id@,
            remote: self.remote.deep_view(),
            tracked_at: self.tracked_at,
        }
    }
}

impl DeepView for TrackedBookmark {
    type V = TrackedBookmarkView;

    open spec fn deep_view(&self) -> TrackedBookmarkView {
        self@
    }
}

impl Clone for TrackedBookmark {
    fn clone(&self) -> (r: Self)
        ensures
            r@ == self@,
    {
        TrackedBookmark {
            name: self.name.clone(),
            change_id: self.change_id.clone(),
            remote: clone_optional_text(&self.remote),
            tracked_at: self.tracked_at,
        }
    }
}

impl TrackedBookmark {
    /// A bookmark tracked at `tracked_at`, without a remote. The library
    /// reads no clock: the caller says what time it is.
    pub fn new(name: String, change_id: String, tracked_at: i64) -> (r: Self)
        ensures
            r@ == (TrackedBookmarkView {
                name: name@,
                change_id: change_id@,
                remote: None,
                tracked_at,
            }),
    {
        TrackedBookmark { name, change_id, remote: None, tracked_at }
    }

    /// A bookmark tracked at `tracked_at`, for a remote.
    pub fn with_remote(
        name: String,
        change_id: String,
        remote: String,
        tracked_at: i64,
    ) -> (r: Self)
        ensures
            r@ == (TrackedBookmarkView {
                name: name@,
                change_id: change_id@,
                remote: Some(remote@),
                tracked_at,
            }),
    {
        TrackedBookmark { name, change_id, remote: Some(remote), tracked_at }
    }
}

/// The tracked bookmarks.
#[derive(Debug)]
pub struct TrackingState {
    /// Version of the file format.
    pub version: u32,
    /// The tracked bookmarks, in the order in which they were tracked.
    pub bookmarks: Vec<TrackedBookmark>,
}

/// The view of a [`TrackingState`].
pub struct TrackingView {
    pub version: u32,
    pub bookmarks: Seq<TrackedBookmarkView>,
}

impl TrackingView {
    /// The names of the tracked bookmarks, in order.
    pub open spec fn names(self) -> Seq<Seq<char>> {
        self.bookmarks.map_values(|b: TrackedBookmarkView| b.name)
    }

    /// Whether a bookmark called `name` is tracked.
    pub open spec fn is_tracked(self, name: Seq<char>) -> bool {
        self.names().contains(name)
    }
}

/// The bookmarks that are not called `name`, in order.
pub open spec fn without_name(bookmarks: Seq<TrackedBookmarkView>, name: Seq<char>) -> Seq<
    TrackedBookmarkView,
>
    decreases bookmarks.len(),
{
    if bookmarks.len() == 0 {
        Seq::empty()
    } else {
        let rest = without_name(bookmarks.drop_last(), name);
        if bookmarks.last().name != name {
            rest.push(bookmarks.last())
        } else {
            rest
        }
    }
}

/// Leaving out a name leaves out something exactly if the name occurs.
pub proof fn lemma_without_name_len(bookmarks: Seq<TrackedBookmarkView>, name: Seq<char>)
    ensures
        without_name(bookmarks, name).len() <= bookmarks.len(),
        without_name(bookmarks, name).len() < bookmarks.len() <==> exists|i: int|
            0 <= i < bookmarks.len() && (#[trigger] bookmarks[i]).name == name,
        forall|i: int|
            0 <= i < without_name(bookmarks, name).len() ==> (#[trigger] without_name(
                bookmarks,
                name,
            )[i]).name != name,
    decreases bookmarks.len(),
{
    if bookmarks.len() > 0 {
        let shorter = bookmarks.drop_last();
        lemma_without_name_len(shorter, name);
        if exists|i: int| 0 <= i < shorter.len() && (#[trigger] shorter[i]).name == name {
            let i = choose|i: int| 0 <= i < shorter.len() && (#[trigger] shorter[i]).name == name;
            assert(bookmarks[i].name == name);
        }
        if bookmarks.last().name == name {
            assert(bookmarks[bookmarks.len() - 1].name == name);
        }
        if exists|i: int| 0 <= i < bookmarks.len() && (#[trigger] bookmarks[i]).name == name {
            let i = choose|i: int|
                0 <= i < bookmarks.len() && (#[trigger] bookmarks[i]).name == name;
            if i < shorter.len() {
                assert(shorter[i].name == name);
            }
        }
    }
}

impl View for TrackingState {
    type V = TrackingView;

    open spec fn view(&self) -> TrackingView {
        TrackingView { version: self.version, bookmarks: self.bookmarks.deep_view() }
    }
}

impl Clone for TrackingState {
    fn clone(&self) -> (r: Self)
        ensures
            r@ == self@,
    {
        let mut bookmarks: Vec<TrackedBookmark> = Vec::new();
        let mut i: usize = 0;
        while i < self.bookmarks.len()
            invariant
                i <= self.bookmarks.len(),
                bookmarks.len() == i,
                forall|k: int| 0 <= k < i ==> bookmarks@[k]@ == self.bookmarks@[k]@,
            decreases self.bookmarks.len() - i,
        {
            bookmarks.push(self.bookmarks[i].clone());
            i += 1;
        }
        assert(bookmarks.deep_view() =~= self.bookmarks.deep_view());
        TrackingState { version: self.version, bookmarks }
    }
}

impl Default for TrackingState {
    fn default() -> (r: Self)
        ensures
            r@.version == 0,
            r@.bookmarks.len() == 0,
    {
        TrackingState { version: 0, bookmarks: Vec::new() }
    }
}

impl TrackingState {
    /// A state of today's version that tracks nothing.
    pub fn new() -> (r: Self)
        ensures
            r@.version == TRACKING_VERSION,
            r@.bookmarks.len() == 0,
    {
        TrackingState { version: TRACKING_VERSION, bookmarks: Vec::new() }
    }

    /// The position of the first tracked bookmark called `name`.
    fn position(&self, name: &str) -> (r: Option<usize>)
        ensures
            match r {
                Some(i) => crate::text::is_first_position(self@.names(), name@, i as int),
                None => !self@.is_tracked(name@),
            },
    {
        let ghost names = self@.names();
        let mut i: usize = 0;
        while i < self.bookmarks.len()
            invariant
                names == self@.names(),
                i <= self.bookmarks.len(),
                forall|k: int| 0 <= k < i ==> names[k] != name@,
            decreases self.bookmarks.len() - i,
        {
            if same_text(self.bookmarks[i].name.as_str(), name) {
                return Some(i);
            }
            i += 1;
        }
        None
    }

    /// Whether a bookmark called `name` is tracked.
    pub fn is_tracked(&self, name: &str) -> (r: bool)
        ensures
            r == self@.is_tracked(name@),
    {
        self.position(name).is_some()
    }

    /// The first tracked bookmark called `name`.
    pub fn get(&self, name: &str) -> (r: Option<&TrackedBookmark>)
        ensures
            match r {
                Some(bookmark) => self@.is_tracked(name@) && bookmark@
                    == self@.bookmarks[crate::text::first_position(self@.names(), name@)],
                None => !self@.is_tracked(name@),
            },
    {
        match self.position(name) {
            Some(i) => Some(&self.bookmarks[i]),
            None => None,
        }
    }

    /// Tracks a bookmark. A bookmark whose name is tracked already is left
    /// as it is.
    pub fn track(&mut self, bookmark: TrackedBookmark)
        ensures
            final(self)@.version == old(self)@.version,
            final(self)@.bookmarks == if old(self)@.is_tracked(bookmark@.name) {
                old(self)@.bookmarks
            } else {
                old(self)@.bookmarks.push(bookmark@)
            },
    {
        if !self.is_tracked(bookmark.name.as_str()) {
            let ghost before = self.bookmarks.deep_view();
            self.bookmarks.push(bookmark);
            assert(self.bookmarks.deep_view() =~= before.push(bookmark@));
        }
    }

    /// Stops tracking every bookmark called `name`. Returns whether there
    /// was one.
    pub fn untrack(&mut self, name: &str) -> (removed: bool)
        ensures
            final(self)@.version == old(self)@.version,
            final(self)@.bookmarks == without_name(old(self)@.bookmarks, name@),
            removed == old(self)@.is_tracked(name@),
            !final(self)@.is_tracked(name@),
    {
        let ghost before = self.bookmarks.deep_view();
        let mut kept: Vec<TrackedBookmark> = Vec::new();
        let mut all: Vec<TrackedBookmark> = Vec::new();
        core::mem::swap(&mut all, &mut self.bookmarks);
        let count = all.len();
        let mut i: usize = 0;
        assert(before.take(0) =~= Seq::empty());
        assert(kept.deep_view() =~= Seq::empty());
        while i < all.len()
            invariant
                all.deep_view() == before,
                count == all.len(),
                i <= all.len(),
                kept.deep_view() == without_name(before.take(i as int), name@),
            decreases all.len() - i,
        {
            proof {
                assert(before.take(i + 1).drop_last() =~= before.take(i as int));
                assert(before.take(i + 1).last() == all@[i as int]@);
            }
            if !same_text(all[i].name.as_str(), name) {
                let ghost list = kept.deep_view();
                kept.push(all[i].clone());
                assert(kept.deep_view() =~= list.push(all@[i as int]@));
            }
            i += 1;
        }
        proof {
            assert(before.take(i as int) =~= before);
            lemma_without_name_len(before, name@);
            assert(kept.deep_view().len() == kept.len());
            if old(self)@.is_tracked(name@) {
                let k = choose|k: int|
                    0 <= k < old(self)@.names().len() && old(self)@.names()[k] == name@;
                assert(before[k].name == name@);
            }
            if exists|k: int| 0 <= k < before.len() && (#[trigger] before[k]).name == name@ {
                let k = choose|k: int| 0 <= k < before.len() && (#[trigger] before[k]).name == name@;
                assert(old(self)@.names()[k] == name@);
            }
        }
        let removed = kept.len() < count;
        self.bookmarks = kept;
        proof {
            if self@.is_tracked(name@) {
                let k = choose|k: int| 0 <= k < self@.names().len() && self@.names()[k] == name@;
                assert(self@.bookmarks[k].name == name@);
            }
        }
        removed
    }

    /// The names of the tracked bookmarks, in order.
    pub fn tracked_names(&self) -> (names: Vec<String>)
        ensures
            names.deep_view() == self@.names(),
    {
        let mut names: Vec<String> = Vec::new();
        let mut i: usize = 0;
        while i < self.bookmarks.len()
            invariant
                i <= self.bookmarks.len(),
                names.len() == i,
                forall|k: int| 0 <= k < i ==> names@[k]@ == self.bookmarks@[k]@.name,
            decreases self.bookmarks.len() - i,
        {
            names.push(self.bookmarks[i].name.clone());
            i += 1;
        }
        assert(names.deep_view() =~= self@.names());
        names
    }

    /// The state as it is saved: the same bookmarks under today's version.
    pub fn stamped(&self) -> (r: Self)
        ensures
            r@.version == TRACKING_VERSION,
            r@.bookmarks == self@.bookmarks,
    {
        let mut r = self.clone();
        r.version = TRACKING_VERSION;
        r
    }
}

/// The text of the tracking file: the header comment, then the state as
/// it was serialised.
pub fn tracking_file_text(serialised: &str) -> (r: String)
    ensures
        r@ == TRACKING_HEADER@ + serialised@,
{
    join(TRACKING_HEADER, serialised)
}

} // verus!
