//! Phase 1: which segments of the stack a submission covers, and which
//! bookmark stands for each of them.

use crate::error::{Error, ErrorView};
use crate::text::{
    contains_text, ends_with_text, lemma_bytes_trichotomy, lemma_name_precedes_transitive,
    name_precedes, precedes, same_text, starts_with_text, text_contains, text_ends_with,
    text_starts_with,
};
use crate::types::{
    clone_changes, Bookmark, BookmarkSegment, BookmarkSegmentView, BookmarkView, BranchStackView,
    ChangeGraph, ChangeGraphView, LogEntryView, NarrowedBookmarkSegment, NarrowedSegmentView,
};
use vstd::prelude::*;
use vstd::utf8::encode_utf8;

verus! {

/// The text that `str::to_lowercase` returns for `text`.
pub uninterp spec fn lowercase_of(text: Seq<char>) -> Seq<char>;

/// Calls `str::to_lowercase`, which maps each character to its lowercase
/// form as Unicode defines it. The contract only gives the result its name.
#[verifier::external_body]
fn to_lowercase(text: &str) -> (r: String)
    ensures
        r@ == lowercase_of(text@),
{
    text.to_lowercase()
}

/// Whether a name, already in lower case, carries one of the marks of a
/// temporary bookmark.
pub open spec fn temporary_marker(lower: Seq<char>) -> bool {
    ||| text_contains(lower, "wip"@)
    ||| text_contains(lower, "tmp"@)
    ||| text_contains(lower, "temp"@)
    ||| text_contains(lower, "backup"@)
    ||| text_ends_with(lower, "-old"@)
    ||| text_ends_with(lower, "_old"@)
    ||| text_starts_with(lower, "wip-"@)
    ||| text_starts_with(lower, "wip/"@)
}

/// Whether a bookmark name looks temporary, whatever its case.
pub open spec fn is_temporary_name(name: Seq<char>) -> bool {
    temporary_marker(lowercase_of(name))
}

/// Whether a name, already in lower case, carries one of the marks of a
/// temporary bookmark.
pub fn has_temporary_marker(lower: &str) -> (r: bool)
    ensures
        r == temporary_marker(lower@),
{
    contains_text(lower, "wip") || contains_text(lower, "tmp") || contains_text(lower, "temp")
        || contains_text(lower, "backup") || ends_with_text(lower, "-old") || ends_with_text(
        lower,
        "_old",
    ) || starts_with_text(lower, "wip-") || starts_with_text(lower, "wip/")
}

/// Whether a bookmark name looks temporary, whatever its case.
pub fn is_temporary_bookmark(name: &str) -> (r: bool)
    ensures
        r == is_temporary_name(name@),
{
    let lower = to_lowercase(name);
    has_temporary_marker(lower.as_str())
}

/// The view of an optional text.
pub open spec fn optional_text(text: Option<&str>) -> Option<Seq<char>> {
    match text {
        Some(t) => Some(t@),
        None => None,
    }
}

/// Some candidate does not look temporary.
pub open spec fn some_permanent(names: Seq<Seq<char>>) -> bool {
    exists|j: int| 0 <= j < names.len() && !is_temporary_name(#[trigger] names[j])
}

/// Candidate `i` takes part in the choice by length and byte order:
/// temporary names stay out as long as another name is left.
pub open spec fn in_pool(names: Seq<Seq<char>>, i: int) -> bool {
    0 <= i < names.len() && (some_permanent(names) ==> !is_temporary_name(names[i]))
}

/// Candidate `i` is the one that narrowing selects among `names`:
/// the only candidate; else the first candidate called `target`; else the
/// first candidate of the pool that no other candidate of the pool precedes.
pub open spec fn is_choice(names: Seq<Seq<char>>, target: Option<Seq<char>>, i: int) -> bool {
    &&& 0 <= i < names.len()
    &&& if names.len() == 1 {
        true
    } else if target is Some && names.contains(target->0) {
        names[i] == target->0 && forall|j: int| 0 <= j < i ==> names[j] != target->0
    } else {
        &&& in_pool(names, i)
        &&& forall|j: int| #[trigger]
            in_pool(names, j) ==> !name_precedes(names[j], names[i]) && (j < i ==> name_precedes(
                names[i],
                names[j],
            ))
    }
}

/// The index of the candidate that narrowing selects.
pub open spec fn choice(names: Seq<Seq<char>>, target: Option<Seq<char>>) -> int {
    choose|i: int| is_choice(names, target, i)
}

/// Narrowing selects at most one candidate.
pub proof fn lemma_choice_unique(
    names: Seq<Seq<char>>,
    target: Option<Seq<char>>,
    i: int,
    j: int,
)
    requires
        is_choice(names, target, i),
        is_choice(names, target, j),
    ensures
        i == j,
{
    if names.len() != 1 && !(target is Some && names.contains(target->0)) {
        assert(in_pool(names, i));
        assert(in_pool(names, j));
    }
}

/// Of two names, one precedes the other or they have the same bytes.
proof fn lemma_name_trichotomy(a: Seq<char>, b: Seq<char>)
    ensures
        name_precedes(a, b) || name_precedes(b, a) || encode_utf8(a) == encode_utf8(b),
{
    if encode_utf8(a).len() == encode_utf8(b).len() {
        lemma_bytes_trichotomy(encode_utf8(a), encode_utf8(b));
    }
}

/// The segment reduced to the bookmark that narrowing selects.
pub open spec fn narrow(segment: BookmarkSegmentView, target: Option<Seq<char>>)
    -> NarrowedSegmentView {
    NarrowedSegmentView {
        bookmark: segment.bookmarks[choice(segment.names(), target)],
        changes: segment.changes,
    }
}

/// Selects the bookmark that stands for a segment: the only candidate; else
/// the requested target if it is among the candidates; else, leaving out
/// temporary names where another is left, the shortest name, and of several
/// shortest the first in byte order.
pub fn select_bookmark_for_segment(segment: &BookmarkSegment, target: Option<&str>) -> (r:
    Bookmark)
    requires
        segment@.bookmarks.len() > 0,
    ensures
        is_choice(
            segment@.names(),
            optional_text(target),
            choice(segment@.names(), optional_text(target)),
        ),
        r@ == narrow(segment@, optional_text(target)).bookmark,
{
    let ghost names = segment@.names();
    let ghost wanted = optional_text(target);
    let n = segment.bookmarks.len();
    assert(segment.bookmarks.deep_view().len() == n);
    assert forall|k: int| 0 <= k < n implies names[k] == #[trigger] segment.bookmarks@[k]@.name by {}
    if n == 1 {
        assert(is_choice(names, wanted, 0));
        proof {
            lemma_choice_unique(names, wanted, 0, choice(names, wanted));
        }
        return segment.bookmarks[0].clone();
    }
    if let Some(target_name) = target {
        let mut i: usize = 0;
        while i < n
            invariant
                n == segment.bookmarks.len(),
                n != 1,
                names == segment@.names(),
                names.len() == n,
                wanted == Some(target_name@),
                wanted == optional_text(target),
                forall|k: int| 0 <= k < n ==> names[k] == #[trigger] segment.bookmarks@[k]@.name,
                i <= n,
                forall|k: int| 0 <= k < i ==> names[k] != target_name@,
            decreases n - i,
        {
            if same_text(segment.bookmarks[i].name.as_str(), target_name) {
                assert(names[i as int] == target_name@);
                assert(is_choice(names, wanted, i as int));
                proof {
                    lemma_choice_unique(names, wanted, i as int, choice(names, wanted));
                }
                return segment.bookmarks[i].clone();
            }
            i += 1;
        }
        assert(!names.contains(target_name@));
    }
    let mut temporary: Vec<bool> = Vec::new();
    let mut any_permanent = false;
    let mut i: usize = 0;
    while i < n
        invariant
            n == segment.bookmarks.len(),
            names == segment@.names(),
            names.len() == n,
            i <= n,
            temporary.len() == i,
            forall|k: int| 0 <= k < n ==> names[k] == #[trigger] segment.bookmarks@[k]@.name,
            forall|k: int| 0 <= k < i ==> temporary@[k] == is_temporary_name(names[k]),
            any_permanent == (exists|k: int| 0 <= k < i && !is_temporary_name(#[trigger] names[k])),
        decreases n - i,
    {
        let t = is_temporary_bookmark(segment.bookmarks[i].name.as_str());
        temporary.push(t);
        if !t {
            any_permanent = true;
        }
        proof {
            assert(t == is_temporary_name(names[i as int]));
            if any_permanent && t {
                let k = choose|k: int| 0 <= k < i && !is_temporary_name(#[trigger] names[k]);
                assert(0 <= k < i + 1 && !is_temporary_name(names[k]));
            }
        }
        i += 1;
    }
    assert(any_permanent == some_permanent(names));
    let mut best: Option<usize> = None;
    let mut i: usize = 0;
    while i < n
        invariant
            n == segment.bookmarks.len(),
            names == segment@.names(),
            names.len() == n,
            i <= n,
            temporary.len() == n,
            forall|k: int| 0 <= k < n ==> temporary@[k] == is_temporary_name(names[k]),
            any_permanent == some_permanent(names),
            forall|k: int| 0 <= k < n ==> names[k] == #[trigger] segment.bookmarks@[k]@.name,
            match best {
                Some(b) => {
                    &&& b < i
                    &&& in_pool(names, b as int)
                    &&& forall|j: int|
                        0 <= j < i && #[trigger] in_pool(names, j) ==> !name_precedes(
                            names[j],
                            names[b as int],
                        ) && (j < b ==> name_precedes(names[b as int], names[j]))
                },
                None => forall|j: int| 0 <= j < i ==> !in_pool(names, j),
            },
        decreases n - i,
    {
        if !any_permanent || !temporary[i] {
            assert(in_pool(names, i as int));
            match best {
                None => {
                    best = Some(i);
                },
                Some(b) => {
                    if precedes(
                        segment.bookmarks[i].name.as_str(),
                        segment.bookmarks[b].name.as_str(),
                    ) {
                        proof {
                            assert forall|j: int|
                                0 <= j < i + 1 && #[trigger] in_pool(
                                    names,
                                    j,
                                ) implies !name_precedes(names[j], names[i as int]) && (j < i
                                ==> name_precedes(names[i as int], names[j])) by {
                                if j < i {
                                    if name_precedes(names[j], names[i as int]) {
                                        lemma_name_precedes_transitive(
                                            names[j],
                                            names[i as int],
                                            names[b as int],
                                        );
                                    }
                                    if j < b {
                                        lemma_name_precedes_transitive(
                                            names[i as int],
                                            names[b as int],
                                            names[j],
                                        );
                                    } else if j > b {
                                        lemma_name_trichotomy(names[b as int], names[j]);
                                        if name_precedes(names[b as int], names[j]) {
                                            lemma_name_precedes_transitive(
                                                names[i as int],
                                                names[b as int],
                                                names[j],
                                            );
                                        }
                                    }
                                }
                            }
                        }
                        best = Some(i);
                    }
                },
            }
        } else {
            assert(!in_pool(names, i as int));
        }
        i += 1;
    }
    match best {
        Some(b) => {
            assert(is_choice(names, wanted, b as int));
            proof {
                lemma_choice_unique(names, wanted, b as int, choice(names, wanted));
            }
            segment.bookmarks[b].clone()
        },
        None => {
            proof {
                if some_permanent(names) {
                    let j = choose|j: int| 0 <= j < names.len() && !is_temporary_name(#[trigger] names[j]);
                    assert(in_pool(names, j));
                } else {
                    assert(in_pool(names, 0));
                }
                assert(false);
            }
            segment.bookmarks[0].clone()
        },
    }
}

/// Every non-empty list of candidates has a choice.
pub proof fn lemma_choice_exists(names: Seq<Seq<char>>, target: Option<Seq<char>>)
    requires
        names.len() > 0,
    ensures
        is_choice(names, target, choice(names, target)),
{
    if names.len() == 1 {
        assert(is_choice(names, target, 0));
    } else if target is Some && names.contains(target->0) {
        crate::text::lemma_first_position(names, target->0);
        assert(is_choice(names, target, crate::text::first_position(names, target->0)));
    } else {
        if some_permanent(names) {
            let j = choose|j: int| 0 <= j < names.len() && !is_temporary_name(#[trigger] names[j]);
            assert(in_pool(names, j));
        } else {
            assert(in_pool(names, 0));
        }
        let b = lemma_pool_least(names, names.len() as int);
        assert(is_choice(names, target, b));
    }
}

/// The first least member of the pool among the candidates before `upto`.
proof fn lemma_pool_least(names: Seq<Seq<char>>, upto: int) -> (b: int)
    requires
        0 <= upto <= names.len(),
        exists|k: int| 0 <= k < upto && in_pool(names, k),
    ensures
        0 <= b < upto,
        in_pool(names, b),
        forall|j: int|
            0 <= j < upto && #[trigger] in_pool(names, j) ==> !name_precedes(names[j], names[b])
                && (j < b ==> name_precedes(names[b], names[j])),
    decreases upto,
{
    let last = upto - 1;
    if exists|k: int| 0 <= k < last && in_pool(names, k) {
        let b = lemma_pool_least(names, last);
        if in_pool(names, last) && name_precedes(names[last], names[b]) {
            assert forall|j: int| 0 <= j < upto && #[trigger] in_pool(names, j) implies !name_precedes(
                names[j],
                names[last],
            ) && (j < last ==> name_precedes(names[last], names[j])) by {
                if j < last {
                    if name_precedes(names[j], names[last]) {
                        lemma_name_precedes_transitive(names[j], names[last], names[b]);
                    }
                    if j < b {
                        lemma_name_precedes_transitive(names[last], names[b], names[j]);
                    } else if j > b {
                        lemma_name_trichotomy(names[b], names[j]);
                        if name_precedes(names[b], names[j]) {
                            lemma_name_precedes_transitive(names[last], names[b], names[j]);
                        }
                    }
                }
            }
            last
        } else {
            b
        }
    } else {
        last
    }
}

/// Narrowing keeps to the candidates, and it selects a name that does not
/// look temporary wherever there is one, unless the requested target is
/// itself a temporary name among several candidates.
pub proof fn lemma_narrowing_prefers_permanent(
    segment: BookmarkSegmentView,
    target: Option<Seq<char>>,
)
    requires
        segment.bookmarks.len() > 0,
        !(segment.bookmarks.len() > 1 && target is Some && segment.has_name(target->0)
            && is_temporary_name(target->0)),
    ensures
        0 <= choice(segment.names(), target) < segment.bookmarks.len(),
        narrow(segment, target).bookmark == segment.bookmarks[choice(segment.names(), target)],
        narrow(segment, target).changes == segment.changes,
        some_permanent(segment.names()) ==> !is_temporary_name(
            narrow(segment, target).bookmark.name,
        ),
{
    let names = segment.names();
    lemma_choice_exists(names, target);
    let c = choice(names, target);
    if names.len() > 1 && target is Some && names.contains(target->0) {
        assert(segment.bookmarks[c].name == target->0);
        assert(segment.has_name(target->0));
    } else if names.len() > 1 {
        assert(in_pool(names, c));
    } else {
        if some_permanent(names) {
            let j = choose|j: int| 0 <= j < names.len() && !is_temporary_name(#[trigger] names[j]);
            assert(j == 0);
        }
    }
}

/// What a submission covers: the target and the narrowed segments from
/// trunk up to it.
#[derive(Debug)]
pub struct SubmissionAnalysis {
    /// Name of the bookmark that the submission ends at.
    pub target_bookmark: String,
    /// The segments to submit, trunk first, each with its chosen bookmark.
    pub segments: Vec<NarrowedBookmarkSegment>,
}

/// The view of a [`SubmissionAnalysis`].
pub struct SubmissionAnalysisView {
    pub target_bookmark: Seq<char>,
    pub segments: Seq<NarrowedSegmentView>,
}

impl View for SubmissionAnalysis {
    type V = SubmissionAnalysisView;

    open spec fn view(&self) -> SubmissionAnalysisView {
        SubmissionAnalysisView {
            target_bookmark: self.target_bookmark@,
            segments: self.segments.deep_view(),
        }
    }
}

impl Clone for SubmissionAnalysis {
    fn clone(&self) -> (r: Self)
        ensures
            r@ == self@,
    {
        SubmissionAnalysis {
            target_bookmark: self.target_bookmark.clone(),
            segments: crate::types::clone_narrowed(&self.segments),
        }
    }
}

impl SubmissionAnalysis {
    /// Whether no bookmark stands for two segments.
    pub fn has_distinct_bookmarks(&self) -> (r: bool)
        ensures
            r == narrowed_names(self@.segments).no_duplicates(),
    {
        let ghost names = narrowed_names(self@.segments);
        let mut i: usize = 0;
        while i < self.segments.len()
            invariant
                names == narrowed_names(self@.segments),
                i <= self.segments.len(),
                forall|a: int, b: int| 0 <= a < b < i ==> names[a] != names[b],
            decreases self.segments.len() - i,
        {
            let mut j: usize = 0;
            while j < i
                invariant
                    names == narrowed_names(self@.segments),
                    i < self.segments.len(),
                    j <= i,
                    forall|a: int| 0 <= a < j ==> names[a] != names[i as int],
                decreases i - j,
            {
                if same_text(
                    self.segments[j].bookmark.name.as_str(),
                    self.segments[i].bookmark.name.as_str(),
                ) {
                    assert(names[j as int] == names[i as int]);
                    return false;
                }
                j += 1;
            }
            i += 1;
        }
        true
    }
}

/// The names of the chosen bookmarks, trunk first.
pub open spec fn narrowed_names(segments: Seq<NarrowedSegmentView>) -> Seq<Seq<char>> {
    segments.map_values(|s: NarrowedSegmentView| s.bookmark.name)
}

/// Some segment has a candidate called `name`.
pub open spec fn stack_has_name(segments: Seq<BookmarkSegmentView>, name: Seq<char>) -> bool {
    exists|i: int| 0 <= i < segments.len() && (#[trigger] segments[i]).has_name(name)
}

/// Segment `i` is the first with a candidate called `name`.
pub open spec fn is_first_segment_with(
    segments: Seq<BookmarkSegmentView>,
    name: Seq<char>,
    i: int,
) -> bool {
    &&& 0 <= i < segments.len()
    &&& segments[i].has_name(name)
    &&& forall|j: int| 0 <= j < i ==> !(#[trigger] segments[j]).has_name(name)
}

/// The index of the segment that a submission ends at: the first segment
/// with a candidate called like the target, or the leaf without a target.
pub open spec fn target_index(segments: Seq<BookmarkSegmentView>, target: Option<Seq<char>>)
    -> int {
    match target {
        Some(name) => choose|i: int| is_first_segment_with(segments, name, i),
        None => segments.len() - 1,
    }
}

/// The segments from trunk to index `last`, each narrowed.
pub open spec fn narrowed_prefix(
    segments: Seq<BookmarkSegmentView>,
    target: Option<Seq<char>>,
    last: int,
) -> Seq<NarrowedSegmentView> {
    Seq::new((last + 1) as nat, |i: int| narrow(segments[i], target))
}

/// What the analysis of `graph` for `target` yields.
pub open spec fn analysis_of(graph: ChangeGraphView, target: Option<Seq<char>>) -> Result<
    SubmissionAnalysisView,
    ErrorView,
> {
    match graph.stack {
        None => Err(
            ErrorView::NoStack(
                "No bookmarks found between trunk and working copy. Create a bookmark with: jj bookmark create <name>"@,
            ),
        ),
        Some(stack) => if stack.segments.len() == 0 {
            Err(ErrorView::NoStack("Stack has no segments"@))
        } else if target is Some && !stack_has_name(stack.segments, target->0) {
            Err(ErrorView::BookmarkNotFound(target->0))
        } else {
            let segments = narrowed_prefix(
                stack.segments,
                target,
                target_index(stack.segments, target),
            );
            Ok(
                SubmissionAnalysisView {
                    target_bookmark: segments.last().bookmark.name,
                    segments,
                },
            )
        },
    }
}

/// Whether a bookmark called `name` points at the tip of `segment`.
pub fn segment_has_name(segment: &BookmarkSegment, name: &str) -> (r: bool)
    ensures
        r == segment@.has_name(name@),
{
    let mut i: usize = 0;
    while i < segment.bookmarks.len()
        invariant
            i <= segment.bookmarks.len(),
            forall|k: int| 0 <= k < i ==> (#[trigger] segment@.bookmarks[k]).name != name@,
        decreases segment.bookmarks.len() - i,
    {
        if same_text(segment.bookmarks[i].name.as_str(), name) {
            assert(segment@.bookmarks[i as int].name == name@);
            return true;
        }
        i += 1;
    }
    false
}

/// The index of the first segment that a bookmark called `name` points at.
fn first_segment_with(segments: &Vec<BookmarkSegment>, name: &str) -> (r: Option<usize>)
    ensures
        match r {
            Some(i) => is_first_segment_with(segments.deep_view(), name@, i as int),
            None => !stack_has_name(segments.deep_view(), name@),
        },
{
    let mut i: usize = 0;
    while i < segments.len()
        invariant
            i <= segments.len(),
            forall|k: int| 0 <= k < i ==> !(#[trigger] segments.deep_view()[k]).has_name(name@),
        decreases segments.len() - i,
    {
        if segment_has_name(&segments[i], name) {
            assert(segments.deep_view()[i as int] == segments@[i as int]@);
            return Some(i);
        }
        assert(segments.deep_view()[i as int] == segments@[i as int]@);
        i += 1;
    }
    None
}

/// Works out what a submission covers. Without a target it is the whole
/// stack; with one, the segments from trunk up to the first segment that a
/// bookmark of that name points at. Each segment is narrowed to one bookmark,
/// and the target is renamed to the bookmark chosen for the last segment.
pub fn analyze_submission(graph: &ChangeGraph, target_bookmark: Option<&str>) -> (r: Result<
    SubmissionAnalysis,
    Error,
>)
    requires
        graph@.well_formed(),
    ensures
        match r {
            Ok(analysis) => analysis_of(graph@, optional_text(target_bookmark)) == Ok::<
                SubmissionAnalysisView,
                ErrorView,
            >(analysis@),
            Err(error) => analysis_of(graph@, optional_text(target_bookmark)) == Err::<
                SubmissionAnalysisView,
                ErrorView,
            >(error@),
        },
{
    let ghost wanted = optional_text(target_bookmark);
    let stack = match &graph.stack {
        None => {
            return Err(
                Error::NoStack(
                    String::from_str(
                        "No bookmarks found between trunk and working copy. Create a bookmark with: jj bookmark create <name>",
                    ),
                ),
            );
        },
        Some(stack) => stack,
    };
    let ghost segments = stack@.segments;
    let count = stack.segments.len();
    assert(segments.len() == count);
    if count == 0 {
        return Err(Error::NoStack(String::from_str("Stack has no segments")));
    }
    let last: usize = match target_bookmark {
        Some(target) => match first_segment_with(&stack.segments, target) {
            Some(i) => i,
            None => {
                return Err(Error::BookmarkNotFound(String::from_str(target)));
            },
        },
        None => count - 1,
    };
    assert(last as int == target_index(segments, wanted)) by {
        if wanted is Some {
            let c = target_index(segments, wanted);
            assert(is_first_segment_with(segments, wanted->0, c));
            if c < last {
                assert(segments[c].has_name(wanted->0));
            }
        }
    }
    let mut narrowed: Vec<NarrowedBookmarkSegment> = Vec::new();
    let mut i: usize = 0;
    while i <= last
        invariant
            count == stack.segments.len(),
            segments == stack@.segments,
            stack@.well_formed(),
            wanted == optional_text(target_bookmark),
            last < count,
            i <= last + 1,
            narrowed.len() == i,
            forall|k: int| 0 <= k < i ==> narrowed@[k]@ == narrow(segments[k], wanted),
        decreases last + 1 - i,
    {
        let segment = &stack.segments[i];
        assert(segment@ == segments[i as int]);
        let bookmark = select_bookmark_for_segment(segment, target_bookmark);
        narrowed.push(NarrowedBookmarkSegment { bookmark, changes: clone_changes(&segment.changes) });
        i += 1;
    }
    assert(narrowed.deep_view() =~= narrowed_prefix(segments, wanted, last as int));
    let actual_target = narrowed[last].bookmark.name.clone();
    Ok(SubmissionAnalysis { target_bookmark: actual_target, segments: narrowed })
}

/// What `get_base_branch` yields: the default branch for the first segment,
/// the bookmark of the segment below for any other.
pub open spec fn base_branch_of(
    name: Seq<char>,
    segments: Seq<NarrowedSegmentView>,
    default_branch: Seq<char>,
) -> Result<Seq<char>, ErrorView> {
    let names = narrowed_names(segments);
    if names.contains(name) {
        let i = crate::text::first_position(names, name);
        if i == 0 {
            Ok(default_branch)
        } else {
            Ok(names[i - 1])
        }
    } else {
        Err(ErrorView::BookmarkNotFound(name))
    }
}

/// The position of the first segment whose bookmark is called `name`.
pub fn position_of_bookmark(segments: &[NarrowedBookmarkSegment], name: &str) -> (r: Option<
    usize,
>)
    ensures
        match r {
            Some(i) => crate::text::is_first_position(
                narrowed_names(segments.deep_view()),
                name@,
                i as int,
            ) && i == crate::text::first_position(narrowed_names(segments.deep_view()), name@),
            None => !narrowed_names(segments.deep_view()).contains(name@),
        },
{
    let ghost names = narrowed_names(segments.deep_view());
    let mut i: usize = 0;
    while i < segments.len()
        invariant
            names == narrowed_names(segments.deep_view()),
            i <= segments.len(),
            forall|k: int| 0 <= k < i ==> names[k] != name@,
        decreases segments.len() - i,
    {
        if same_text(segments[i].bookmark.name.as_str(), name) {
            assert(crate::text::is_first_position(names, name@, i as int));
            return Some(i);
        }
        i += 1;
    }
    None
}

/// The branch that the pull request of `bookmark_name` is based on: the
/// default branch for the first segment, else the bookmark one segment below.
pub fn get_base_branch(
    bookmark_name: &str,
    segments: &[NarrowedBookmarkSegment],
    default_branch: &str,
) -> (r: Result<String, Error>)
    ensures
        match r {
            Ok(base) => base_branch_of(bookmark_name@, segments.deep_view(), default_branch@)
                == Ok::<Seq<char>, ErrorView>(base@),
            Err(error) => base_branch_of(bookmark_name@, segments.deep_view(), default_branch@)
                == Err::<Seq<char>, ErrorView>(error@),
        },
{
    match position_of_bookmark(segments, bookmark_name) {
        Some(i) => {
            if i == 0 {
                Ok(String::from_str(default_branch))
            } else {
                Ok(segments[i - 1].bookmark.name.clone())
            }
        },
        None => Err(Error::BookmarkNotFound(String::from_str(bookmark_name))),
    }
}

/// What `generate_pr_title` yields: the description of the oldest commit of
/// the segment, or the bookmark's name where that is empty or missing.
pub open spec fn pr_title_of(name: Seq<char>, segments: Seq<NarrowedSegmentView>) -> Result<
    Seq<char>,
    ErrorView,
> {
    let names = narrowed_names(segments);
    if names.contains(name) {
        let changes = segments[crate::text::first_position(names, name)].changes;
        if changes.len() == 0 || changes.last().description_first_line.len() == 0 {
            Ok(name)
        } else {
            Ok(changes.last().description_first_line)
        }
    } else {
        Err(ErrorView::BookmarkNotFound(name))
    }
}

/// The title for the pull request of `bookmark_name`: the first line of the
/// description of the segment's oldest commit, or the bookmark's name where
/// there is no such line.
pub fn generate_pr_title(bookmark_name: &str, segments: &[NarrowedBookmarkSegment]) -> (r:
    Result<String, Error>)
    ensures
        match r {
            Ok(title) => pr_title_of(bookmark_name@, segments.deep_view()) == Ok::<
                Seq<char>,
                ErrorView,
            >(title@),
            Err(error) => pr_title_of(bookmark_name@, segments.deep_view()) == Err::<
                Seq<char>,
                ErrorView,
            >(error@),
        },
{
    match position_of_bookmark(segments, bookmark_name) {
        Some(i) => {
            let segment = &segments[i];
            assert(segment@ == segments.deep_view()[i as int]);
            if segment.changes.len() == 0 {
                return Ok(String::from_str(bookmark_name));
            }
            let root = &segment.changes[segment.changes.len() - 1];
            assert(root@ == segment@.changes.last());
            if root.description_first_line.as_str().is_empty() {
                Ok(String::from_str(bookmark_name))
            } else {
                Ok(root.description_first_line.clone())
            }
        },
        None => Err(Error::BookmarkNotFound(String::from_str(bookmark_name))),
    }
}

/// What `create_narrowed_segments` yields: each bookmark with the commits of
/// the segment at its position, or an error naming the first position that
/// the analysis has no segment for.
pub open spec fn paired_segments(
    bookmarks: Seq<BookmarkView>,
    analysis: SubmissionAnalysisView,
) -> Result<Seq<NarrowedSegmentView>, ErrorView> {
    if bookmarks.len() <= analysis.segments.len() {
        Ok(
            Seq::new(
                bookmarks.len(),
                |i: int|
                    NarrowedSegmentView {
                        bookmark: bookmarks[i],
                        changes: analysis.segments[i].changes,
                    },
            ),
        )
    } else {
        Err(
            ErrorView::Internal(
                "No segment at index "@ + crate::text::decimal_text(analysis.segments.len()),
            ),
        )
    }
}

/// Pairs bookmarks that were resolved elsewhere with the commits of the
/// analysed segments, position by position.
pub fn create_narrowed_segments(resolved_bookmarks: &[Bookmark], analysis: &SubmissionAnalysis)
    -> (r: Result<Vec<NarrowedBookmarkSegment>, Error>)
    ensures
        match r {
            Ok(segments) => paired_segments(resolved_bookmarks.deep_view(), analysis@) == Ok::<
                Seq<NarrowedSegmentView>,
                ErrorView,
            >(segments.deep_view()),
            Err(error) => paired_segments(resolved_bookmarks.deep_view(), analysis@) == Err::<
                Seq<NarrowedSegmentView>,
                ErrorView,
            >(error@),
        },
{
    let mut segments: Vec<NarrowedBookmarkSegment> = Vec::new();
    let mut i: usize = 0;
    while i < resolved_bookmarks.len()
        invariant
            i <= resolved_bookmarks.len(),
            i <= analysis.segments.len(),
            segments.len() == i,
            forall|k: int|
                0 <= k < i ==> segments@[k]@ == (NarrowedSegmentView {
                    bookmark: resolved_bookmarks@[k]@,
                    changes: analysis.segments@[k]@.changes,
                }),
        decreases resolved_bookmarks.len() - i,
    {
        if i >= analysis.segments.len() {
            let index = crate::text::decimal(i as u64);
            return Err(Error::Internal(crate::text::join("No segment at index ", index.as_str())));
        }
        segments.push(
            NarrowedBookmarkSegment {
                bookmark: resolved_bookmarks[i].clone(),
                changes: clone_changes(&analysis.segments[i].changes),
            },
        );
        i += 1;
    }
    assert(segments.deep_view() =~= paired_segments(resolved_bookmarks.deep_view(), analysis@)->Ok_0);
    Ok(segments)
}

} // verus!
