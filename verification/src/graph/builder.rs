//! Cuts the commits between trunk and the working copy into bookmark
//! segments.

use crate::name_map::NameMap;
use crate::types::{
    Bookmark, BookmarkSegment, BookmarkSegmentView, BookmarkView, BranchStack, BranchStackView,
    ChangeGraph, ChangeGraphView, LogEntry, LogEntryView,
};
use vstd::prelude::*;

verus! {

/// The bookmarks by name. Of two bookmarks with one name the later stands.
pub open spec fn bookmarks_by_name(bookmarks: Seq<BookmarkView>) -> Map<Seq<char>, BookmarkView>
    decreases bookmarks.len(),
{
    if bookmarks.len() == 0 {
        Map::empty()
    } else {
        bookmarks_by_name(bookmarks.drop_last()).insert(bookmarks.last().name, bookmarks.last())
    }
}

/// The bookmarks that `names` stand for, in the order of `names`. A name
/// that no bookmark has is passed over.
pub open spec fn known_bookmarks(names: Seq<Seq<char>>, by_name: Map<Seq<char>, BookmarkView>)
    -> Seq<BookmarkView>
    decreases names.len(),
{
    if names.len() == 0 {
        Seq::empty()
    } else {
        let rest = known_bookmarks(names.drop_last(), by_name);
        if by_name.contains_key(names.last()) {
            rest.push(by_name[names.last()])
        } else {
            rest
        }
    }
}

/// Where the walk from the newest commit downwards stands: the segments
/// closed so far, leaf first, and the commits since the last tip.
pub struct Walk {
    pub segments: Seq<BookmarkSegmentView>,
    pub pending: Seq<LogEntryView>,
}

/// The walk over `changes`, newest first. Each commit joins the pending run;
/// a commit that a known bookmark points at closes the run as a segment.
pub open spec fn walk(changes: Seq<LogEntryView>, by_name: Map<Seq<char>, BookmarkView>) -> Walk
    decreases changes.len(),
{
    if changes.len() == 0 {
        Walk { segments: Seq::empty(), pending: Seq::empty() }
    } else {
        let before = walk(changes.drop_last(), by_name);
        let run = before.pending.push(changes.last());
        let tips = known_bookmarks(changes.last().local_bookmarks, by_name);
        if tips.len() > 0 {
            Walk {
                segments: before.segments.push(
                    BookmarkSegmentView { bookmarks: tips, changes: run },
                ),
                pending: Seq::empty(),
            }
        } else {
            Walk { segments: before.segments, pending: run }
        }
    }
}

/// The segments of `changes`, trunk first. Commits below the lowest tip
/// belong to no segment.
pub open spec fn segments_of(changes: Seq<LogEntryView>, by_name: Map<Seq<char>, BookmarkView>)
    -> Seq<BookmarkSegmentView> {
    walk(changes, by_name).segments.reverse()
}

/// Some commit of the range has two or more parents.
pub open spec fn has_merge(changes: Seq<LogEntryView>) -> bool {
    exists|i: int| 0 <= i < changes.len() && (#[trigger] changes[i]).is_merge()
}

/// The graph with no bookmark and no stack.
pub open spec fn empty_graph(excluded: usize) -> ChangeGraphView {
    ChangeGraphView { bookmarks: Map::empty(), stack: None, excluded_bookmark_count: excluded }
}

/// The change graph for the commits of the range, newest first, and the
/// local bookmarks of the workspace.
pub open spec fn graph_of(changes: Seq<LogEntryView>, bookmarks: Seq<BookmarkView>)
    -> ChangeGraphView {
    if changes.len() == 0 {
        empty_graph(0)
    } else if has_merge(changes) {
        empty_graph(1)
    } else {
        let by_name = bookmarks_by_name(bookmarks);
        let segments = segments_of(changes, by_name);
        ChangeGraphView {
            bookmarks: by_name,
            stack: if segments.len() == 0 {
                None
            } else {
                Some(BranchStackView { segments })
            },
            excluded_bookmark_count: 0,
        }
    }
}

/// Every segment that the walk closes has a bookmark at its tip.
pub proof fn lemma_walk_segments_have_bookmarks(
    changes: Seq<LogEntryView>,
    by_name: Map<Seq<char>, BookmarkView>,
)
    ensures
        forall|i: int|
            0 <= i < walk(changes, by_name).segments.len() ==> (#[trigger] walk(
                changes,
                by_name,
            ).segments[i]).bookmarks.len() > 0,
    decreases changes.len(),
{
    if changes.len() > 0 {
        lemma_walk_segments_have_bookmarks(changes.drop_last(), by_name);
        let before = walk(changes.drop_last(), by_name);
        let now = walk(changes, by_name);
        assert forall|i: int| 0 <= i < now.segments.len() implies (#[trigger] now.segments[i]).bookmarks.len()
            > 0 by {
            if i < before.segments.len() {
                assert(now.segments[i] == before.segments[i]);
            }
        }
    }
}

/// The graph of any range is well formed, and a graph that reports excluded
/// bookmarks has no stack.
pub proof fn lemma_graph_well_formed(changes: Seq<LogEntryView>, bookmarks: Seq<BookmarkView>)
    ensures
        graph_of(changes, bookmarks).well_formed(),
        graph_of(changes, bookmarks).excluded_bookmark_count > 0 ==> graph_of(
            changes,
            bookmarks,
        ).stack is None,
{
    let by_name = bookmarks_by_name(bookmarks);
    lemma_walk_segments_have_bookmarks(changes, by_name);
    let closed = walk(changes, by_name).segments;
    assert forall|i: int| 0 <= i < closed.reverse().len() implies (#[trigger] closed.reverse()[i]).bookmarks.len()
        > 0 by {
        assert(closed.reverse()[i] == closed[closed.len() - 1 - i]);
    }
}

/// A range in which no known bookmark points at a commit closes no segment.
pub proof fn lemma_walk_without_tips(
    changes: Seq<LogEntryView>,
    by_name: Map<Seq<char>, BookmarkView>,
)
    requires
        forall|i: int|
            0 <= i < changes.len() ==> known_bookmarks(
                (#[trigger] changes[i]).local_bookmarks,
                by_name,
            ).len() == 0,
    ensures
        walk(changes, by_name).segments.len() == 0,
    decreases changes.len(),
{
    if changes.len() > 0 {
        let shorter = changes.drop_last();
        assert forall|i: int| 0 <= i < shorter.len() implies known_bookmarks(
            (#[trigger] shorter[i]).local_bookmarks,
            by_name,
        ).len() == 0 by {
            assert(shorter[i] == changes[i]);
        }
        lemma_walk_without_tips(shorter, by_name);
    }
}

/// Without names there are no bookmarks.
proof fn lemma_known_bookmarks_of_nothing(by_name: Map<Seq<char>, BookmarkView>)
    ensures
        known_bookmarks(Seq::empty(), by_name).len() == 0,
{
}

/// A range without bookmarked commits gives a graph without a stack, and
/// nothing is reported as excluded unless the range holds a merge.
pub proof fn lemma_no_bookmarked_commit_no_stack(
    changes: Seq<LogEntryView>,
    bookmarks: Seq<BookmarkView>,
)
    requires
        forall|i: int| 0 <= i < changes.len() ==> !(#[trigger] changes[i]).is_bookmarked(),
    ensures
        graph_of(changes, bookmarks).stack is None,
        !has_merge(changes) ==> graph_of(changes, bookmarks).excluded_bookmark_count == 0,
{
    let by_name = bookmarks_by_name(bookmarks);
    assert forall|i: int| 0 <= i < changes.len() implies known_bookmarks(
        (#[trigger] changes[i]).local_bookmarks,
        by_name,
    ).len() == 0 by {
        assert(!changes[i].is_bookmarked());
        assert(changes[i].local_bookmarks =~= Seq::empty());
        lemma_known_bookmarks_of_nothing(by_name);
    }
    lemma_walk_without_tips(changes, by_name);
}

/// The commits of the segments laid end to end.
pub open spec fn joined_changes(segments: Seq<BookmarkSegmentView>) -> Seq<LogEntryView>
    decreases segments.len(),
{
    if segments.len() == 0 {
        Seq::empty()
    } else {
        joined_changes(segments.drop_last()) + segments.last().changes
    }
}

/// The walk loses no commit and takes none twice: the segments it has
/// closed and the pending run, laid end to end, are the commits it has seen.
pub proof fn lemma_walk_covers_changes(
    changes: Seq<LogEntryView>,
    by_name: Map<Seq<char>, BookmarkView>,
)
    ensures
        joined_changes(walk(changes, by_name).segments) + walk(changes, by_name).pending
            == changes,
    decreases changes.len(),
{
    if changes.len() > 0 {
        let shorter = changes.drop_last();
        lemma_walk_covers_changes(shorter, by_name);
        let before = walk(shorter, by_name);
        let now = walk(changes, by_name);
        let run = before.pending.push(changes.last());
        let tips = known_bookmarks(changes.last().local_bookmarks, by_name);
        if tips.len() > 0 {
            assert(now.segments.drop_last() =~= before.segments);
            assert(joined_changes(now.segments) + now.pending =~= joined_changes(before.segments)
                + before.pending + seq![changes.last()]);
        } else {
            assert(joined_changes(now.segments) + now.pending =~= joined_changes(before.segments)
                + before.pending + seq![changes.last()]);
        }
        assert(shorter + seq![changes.last()] =~= changes);
    } else {
        assert(joined_changes(walk(changes, by_name).segments) + walk(changes, by_name).pending
            =~= changes);
    }
}

/// Where the commits of segment `i` begin among the commits laid end to end.
pub open spec fn segment_start(segments: Seq<BookmarkSegmentView>, i: int) -> int {
    joined_changes(segments.take(i)).len() as int
}

/// The commits of each segment keep their place among the commits laid
/// end to end, one segment behind the other.
pub proof fn lemma_segment_places(segments: Seq<BookmarkSegmentView>, i: int, a: int)
    requires
        0 <= i < segments.len(),
        0 <= a < segments[i].changes.len(),
    ensures
        segment_start(segments, i) + a < segment_start(segments, i + 1),
        segment_start(segments, i + 1) <= joined_changes(segments).len(),
        joined_changes(segments)[segment_start(segments, i) + a] == segments[i].changes[a],
    decreases segments.len(),
{
    let shorter = segments.drop_last();
    assert(segments.take(i + 1).drop_last() =~= segments.take(i));
    assert(segments.take(i + 1).last() == segments[i]);
    if i == segments.len() - 1 {
        assert(segments.take(i) =~= shorter);
        assert(segments.take(i + 1) =~= segments);
    } else {
        lemma_segment_places(shorter, i, a);
        assert(shorter.take(i) =~= segments.take(i));
        assert(shorter.take(i + 1) =~= segments.take(i + 1));
    }
}

/// Segments further up begin further on.
pub proof fn lemma_segment_starts_ascend(segments: Seq<BookmarkSegmentView>, i: int, j: int)
    requires
        0 <= i <= j <= segments.len(),
    ensures
        segment_start(segments, i) <= segment_start(segments, j),
    decreases j - i,
{
    if i < j {
        lemma_segment_starts_ascend(segments, i, j - 1);
        assert(segments.take(j).drop_last() =~= segments.take(j - 1));
    }
}

/// No commit belongs to two segments: where the commits of the range
/// differ from each other, so do the commits of any two segments.
pub proof fn lemma_segments_share_no_commit(
    changes: Seq<LogEntryView>,
    by_name: Map<Seq<char>, BookmarkView>,
    i: int,
    j: int,
    a: int,
    b: int,
)
    requires
        changes.no_duplicates(),
        0 <= i < j < walk(changes, by_name).segments.len(),
        0 <= a < walk(changes, by_name).segments[i].changes.len(),
        0 <= b < walk(changes, by_name).segments[j].changes.len(),
    ensures
        walk(changes, by_name).segments[i].changes[a] != walk(
            changes,
            by_name,
        ).segments[j].changes[b],
{
    let segments = walk(changes, by_name).segments;
    let all = joined_changes(segments);
    lemma_walk_covers_changes(changes, by_name);
    lemma_segment_places(segments, i, a);
    lemma_segment_places(segments, j, b);
    lemma_segment_starts_ascend(segments, i + 1, j);
    let p = segment_start(segments, i) + a;
    let q = segment_start(segments, j) + b;
    assert(p < q);
    assert(changes[p] == all[p]);
    assert(changes[q] == all[q]);
}

/// The bookmarks by name, as a map that keeps the order of first insertion.
fn index_bookmarks(all_bookmarks: &[Bookmark]) -> (r: NameMap<Bookmark>)
    ensures
        r.well_formed(),
        crate::types::bookmark_views(r@) == bookmarks_by_name(all_bookmarks.deep_view()),
{
    let mut r: NameMap<Bookmark> = NameMap::new();
    let mut i: usize = 0;
    assert(all_bookmarks.deep_view().take(0) =~= Seq::empty());
    assert(crate::types::bookmark_views(r@) =~= Map::empty());
    while i < all_bookmarks.len()
        invariant
            i <= all_bookmarks.len(),
            r.well_formed(),
            crate::types::bookmark_views(r@) == bookmarks_by_name(
                all_bookmarks.deep_view().take(i as int),
            ),
        decreases all_bookmarks.len() - i,
    {
        let bookmark = all_bookmarks[i].clone();
        let name = bookmark.name.clone();
        let ghost before = r@;
        r.insert(name, bookmark);
        proof {
            let list = all_bookmarks.deep_view();
            assert(list.take(i + 1).drop_last() =~= list.take(i as int));
            assert(list.take(i + 1).last() == all_bookmarks@[i as int]@);
            assert(crate::types::bookmark_views(r@) =~= crate::types::bookmark_views(before).insert(
                bookmark@.name,
                bookmark@,
            ));
        }
        i += 1;
    }
    assert(all_bookmarks.deep_view().take(i as int) =~= all_bookmarks.deep_view());
    r
}

/// The bookmarks that `names` stand for, in the order of `names`.
fn collect_known(names: &Vec<String>, by_name: &NameMap<Bookmark>) -> (r: Vec<Bookmark>)
    ensures
        r.deep_view() == known_bookmarks(names.deep_view(), crate::types::bookmark_views(by_name@)),
{
    let ghost map = crate::types::bookmark_views(by_name@);
    let mut r: Vec<Bookmark> = Vec::new();
    let mut i: usize = 0;
    assert(names.deep_view().take(0) =~= Seq::empty());
    assert(r.deep_view() =~= Seq::empty());
    while i < names.len()
        invariant
            i <= names.len(),
            map == crate::types::bookmark_views(by_name@),
            r.deep_view() == known_bookmarks(names.deep_view().take(i as int), map),
        decreases names.len() - i,
    {
        let ghost before = r.deep_view();
        proof {
            let list = names.deep_view();
            assert(list.take(i + 1).drop_last() =~= list.take(i as int));
            assert(list.take(i + 1).last() == names@[i as int]@);
        }
        match by_name.get(names[i].as_str()) {
            Some(bookmark) => {
                r.push(bookmark.clone());
                assert(r.deep_view() =~= before.push(map[names@[i as int]@]));
            },
            None => {},
        }
        i += 1;
    }
    assert(names.deep_view().take(i as int) =~= names.deep_view());
    r
}

/// Cuts `changes`, newest first, into segments, and returns them trunk
/// first together with the local bookmarks by name.
pub fn build_segments_from_changes(changes: &[LogEntry], all_bookmarks: &[Bookmark]) -> (r: (
    Vec<BookmarkSegment>,
    NameMap<Bookmark>,
))
    ensures
        r.1.well_formed(),
        crate::types::bookmark_views(r.1@) == bookmarks_by_name(all_bookmarks.deep_view()),
        r.0.deep_view() == segments_of(
            changes.deep_view(),
            bookmarks_by_name(all_bookmarks.deep_view()),
        ),
{
    let by_name = index_bookmarks(all_bookmarks);
    let ghost map = crate::types::bookmark_views(by_name@);
    let ghost list = changes.deep_view();
    let mut segments: Vec<BookmarkSegment> = Vec::new();
    let mut current: Vec<LogEntry> = Vec::new();
    let mut i: usize = 0;
    assert(list.take(0) =~= Seq::empty());
    assert(segments.deep_view() =~= Seq::empty());
    assert(current.deep_view() =~= Seq::empty());
    while i < changes.len()
        invariant
            i <= changes.len(),
            list == changes.deep_view(),
            map == crate::types::bookmark_views(by_name@),
            segments.deep_view() == walk(list.take(i as int), map).segments,
            current.deep_view() == walk(list.take(i as int), map).pending,
        decreases changes.len() - i,
    {
        let change = &changes[i];
        let ghost pending = current.deep_view();
        let ghost closed = segments.deep_view();
        proof {
            assert(list.take(i + 1).drop_last() =~= list.take(i as int));
            assert(list.take(i + 1).last() == change@);
        }
        current.push(change.clone());
        assert(current.deep_view() =~= pending.push(change@));
        let tips = collect_known(&change.local_bookmarks, &by_name);
        if tips.len() > 0 {
            let mut run: Vec<LogEntry> = Vec::new();
            core::mem::swap(&mut run, &mut current);
            assert(current.deep_view() =~= Seq::empty());
            let segment = BookmarkSegment { bookmarks: tips, changes: run };
            segments.push(segment);
            assert(segments.deep_view() =~= closed.push(segment@));
        }
        i += 1;
    }
    assert(list.take(i as int) =~= list);
    let mut ordered: Vec<BookmarkSegment> = Vec::new();
    let ghost leaf_first = segments.deep_view();
    assert(ordered.deep_view() =~= Seq::empty());
    while segments.len() > 0
        invariant
            segments.len() <= leaf_first.len(),
            segments.deep_view() == leaf_first.take(segments.len() as int),
            ordered.len() == leaf_first.len() - segments.len(),
            forall|k: int|
                0 <= k < ordered.len() ==> ordered@[k]@ == leaf_first[leaf_first.len() - 1 - k],
        decreases segments.len(),
    {
        let ghost before = segments.deep_view();
        let segment = segments.pop().unwrap();
        assert(segment@ == before[before.len() - 1]);
        assert(segments.deep_view() =~= leaf_first.take(segments.len() as int));
        ordered.push(segment);
    }
    assert(ordered.deep_view() =~= leaf_first.reverse());
    (ordered, by_name)
}

/// Projects the commits between trunk and the working copy, newest first,
/// into a change graph. A range with a merge commit gives no stack and an
/// excluded count of one; a range without a bookmarked commit gives no stack.
pub fn build_change_graph(changes: &[LogEntry], all_bookmarks: &[Bookmark]) -> (graph:
    ChangeGraph)
    ensures
        graph@ == graph_of(changes.deep_view(), all_bookmarks.deep_view()),
        graph@.well_formed(),
        (forall|i: int| 0 <= i < changes.len() ==> !(#[trigger] changes.deep_view()[i]).is_bookmarked())
            ==> graph@.stack is None,
{
    proof {
        lemma_graph_well_formed(changes.deep_view(), all_bookmarks.deep_view());
        if forall|i: int| 0 <= i < changes.len() ==> !(#[trigger] changes.deep_view()[i]).is_bookmarked() {
            lemma_no_bookmarked_commit_no_stack(changes.deep_view(), all_bookmarks.deep_view());
        }
    }
    if changes.len() == 0 {
        return ChangeGraph::default();
    }
    let mut i: usize = 0;
    while i < changes.len()
        invariant
            i <= changes.len(),
            forall|k: int| 0 <= k < i ==> !(#[trigger] changes.deep_view()[k]).is_merge(),
        decreases changes.len() - i,
    {
        if changes[i].parents.len() > 1 {
            assert(changes.deep_view()[i as int].is_merge());
            let excluded = ChangeGraph {
                bookmarks: NameMap::new(),
                stack: None,
                excluded_bookmark_count: 1,
            };
            assert(excluded@.bookmarks =~= Map::empty());
            return excluded;
        }
        i += 1;
    }
    let (segments, bookmarks) = build_segments_from_changes(changes, all_bookmarks);
    assert(segments.deep_view().len() == segments.len());
    if segments.len() == 0 {
        return ChangeGraph { bookmarks, stack: None, excluded_bookmark_count: 0 };
    }
    ChangeGraph { bookmarks, stack: Some(BranchStack { segments }), excluded_bookmark_count: 0 }
}

} // verus!
