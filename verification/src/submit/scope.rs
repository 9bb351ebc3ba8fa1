//! How much of the stack a submission covers, and what the options of a
//! submission change in its plan.

use crate::error::{Error, ErrorView};
use crate::submit::analysis::{
    analysis_of, analyze_submission, is_first_segment_with, narrow, narrowed_names,
    optional_text, position_of_bookmark, select_bookmark_for_segment, stack_has_name,
    SubmissionAnalysis, SubmissionAnalysisView,
};
use crate::submit::plan::{ExecutionStep, PrToCreateView, StepView, SubmissionPlan};
use crate::text::{first_position, is_among, is_first_position, wrap};
use crate::types::{
    clone_changes, BookmarkSegment, BookmarkSegmentView, ChangeGraph, ChangeGraphView,
    NarrowedBookmarkSegment, NarrowedSegmentView, PullRequest, PullRequestView,
};
use vstd::prelude::*;

verus! {

/// How much of the stack is submitted. The scopes exclude each other.
#[derive(Debug, Clone, Copy, PartialEq, Eq, Structural)]
pub enum SubmitScope {
    /// From trunk up to the target bookmark.
    Default,
    /// From trunk up to a bookmark that is named apart.
    Upto,
    /// The target bookmark alone; the bookmark below it must have a pull request.
    Only,
    /// From the target bookmark up to the leaf.
    Stack,
}

impl Default for SubmitScope {
    fn default() -> (r: Self)
        ensures
            r == SubmitScope::Default,
    {
        SubmitScope::Default
    }
}

impl SubmitScope {
    /// What the scope adds to the heading of a summary.
    pub open spec fn label(self) -> Seq<char> {
        match self {
            SubmitScope::Default => Seq::empty(),
            SubmitScope::Upto => " (--upto)"@,
            SubmitScope::Only => " (--only)"@,
            SubmitScope::Stack => " (--stack)"@,
        }
    }

    /// What the scope adds to the heading of a summary.
    pub fn suffix(&self) -> (r: String)
        ensures
            r@ == self.label(),
    {
        match self {
            SubmitScope::Default => String::new(),
            SubmitScope::Upto => String::from_str(" (--upto)"),
            SubmitScope::Only => String::from_str(" (--only)"),
            SubmitScope::Stack => String::from_str(" (--stack)"),
        }
    }
}

/// The options of a submission.
#[derive(Debug, Clone, Copy)]
pub struct SubmitOptions<'a> {
    /// Show what would be done and change nothing.
    pub dry_run: bool,
    /// Show the plan and ask before it runs.
    pub confirm: bool,
    /// How much of the stack is submitted.
    pub scope: SubmitScope,
    /// The bookmark to stop at, for the scope `Upto`.
    pub upto_bookmark: Option<&'a str>,
    /// Touch pull requests that exist and create none.
    pub update_only: bool,
    /// Create pull requests as drafts.
    pub draft: bool,
    /// Publish the drafts that exist.
    pub publish: bool,
    /// Let the user pick the bookmarks to submit.
    pub select: bool,
    /// Submit every bookmark of the stack, tracked or not.
    pub all: bool,
}

impl<'a> Default for SubmitOptions<'a> {
    fn default() -> (r: Self)
        ensures
            !r.dry_run && !r.confirm && r.scope == SubmitScope::Default && r.upto_bookmark is None
                && !r.update_only && !r.draft && !r.publish && !r.select && !r.all,
    {
        SubmitOptions {
            dry_run: false,
            confirm: false,
            scope: SubmitScope::Default,
            upto_bookmark: None,
            update_only: false,
            draft: false,
            publish: false,
            select: false,
            all: false,
        }
    }
}

/// Rejects options that contradict each other: pull requests cannot be
/// created as drafts and published in one go.
pub fn validate_options(options: &SubmitOptions<'_>) -> (r: Result<(), Error>)
    ensures
        match r {
            Ok(_) => !(options.draft && options.publish),
            Err(error) => options.draft && options.publish && error@
                == ErrorView::InvalidArgument("Cannot use --draft and --publish together"@),
        },
{
    if options.draft && options.publish {
        return Err(
            Error::InvalidArgument(String::from_str("Cannot use --draft and --publish together")),
        );
    }
    Ok(())
}

/// The analysis cut off behind the first segment whose bookmark is `upto`.
pub open spec fn upto_scope(analysis: SubmissionAnalysisView, upto: Option<Seq<char>>) -> Result<
    SubmissionAnalysisView,
    ErrorView,
> {
    match upto {
        None => Err(ErrorView::InvalidArgument("--upto requires a bookmark name"@)),
        Some(name) => if narrowed_names(analysis.segments).contains(name) {
            Ok(
                SubmissionAnalysisView {
                    target_bookmark: name,
                    segments: analysis.segments.take(
                        first_position(narrowed_names(analysis.segments), name) + 1,
                    ),
                },
            )
        } else {
            Err(
                ErrorView::InvalidArgument("Bookmark '"@ + name + "' not found in stack"@),
            )
        },
    }
}

/// The bookmark below the target of an analysis, if the target is not the
/// lowest: the bookmark whose pull request the scope `Only` asks for.
pub open spec fn parent_of_target(analysis: SubmissionAnalysisView) -> Option<Seq<char>> {
    let names = narrowed_names(analysis.segments);
    if names.contains(analysis.target_bookmark) && first_position(names, analysis.target_bookmark)
        > 0 {
        Some(names[first_position(names, analysis.target_bookmark) - 1])
    } else {
        None
    }
}

/// The analysis reduced to the segment of its target. The bookmark below
/// the target, if there is one, must have a pull request.
pub open spec fn only_scope(analysis: SubmissionAnalysisView, parent_has_pr: bool) -> Result<
    SubmissionAnalysisView,
    ErrorView,
> {
    let names = narrowed_names(analysis.segments);
    let target = analysis.target_bookmark;
    if !names.contains(target) {
        Err(
            ErrorView::InvalidArgument(
                "Target bookmark '"@ + target + "' not found in analysis"@,
            ),
        )
    } else if parent_of_target(analysis) is Some && !parent_has_pr {
        Err(
            ErrorView::InvalidArgument(
                "Cannot use --only: parent bookmark '"@ + parent_of_target(analysis)->0
                    + "' has no PR. Use --upto instead."@,
            ),
        )
    } else {
        Ok(
            SubmissionAnalysisView {
                target_bookmark: target,
                segments: seq![analysis.segments[first_position(names, target)]],
            },
        )
    }
}

/// The segments of the stack from index `from` to the leaf, each narrowed
/// with `target` as the bookmark that is asked for.
pub open spec fn narrowed_from(
    segments: Seq<BookmarkSegmentView>,
    target: Seq<char>,
    from: int,
) -> Seq<NarrowedSegmentView> {
    Seq::new((segments.len() - from) as nat, |i: int| narrow(segments[from + i], Some(target)))
}

/// The analysis stretched from its target to the leaf of the stack. The
/// target becomes the bookmark chosen for the leaf.
pub open spec fn stack_scope(graph: ChangeGraphView, analysis: SubmissionAnalysisView) -> Result<
    SubmissionAnalysisView,
    ErrorView,
> {
    let segments = graph.stack->0.segments;
    let target = analysis.target_bookmark;
    let from = choose|i: int| is_first_segment_with(segments, target, i);
    let narrowed = narrowed_from(segments, target, from);
    Ok(
        SubmissionAnalysisView {
            target_bookmark: narrowed.last().bookmark.name,
            segments: narrowed,
        },
    )
}

/// What the analysis of `graph` yields under a scope.
pub open spec fn scoped_analysis(
    graph: ChangeGraphView,
    bookmark: Option<Seq<char>>,
    scope: SubmitScope,
    upto: Option<Seq<char>>,
    parent_has_pr: bool,
) -> Result<SubmissionAnalysisView, ErrorView> {
    match analysis_of(graph, bookmark) {
        Err(error) => Err(error),
        Ok(analysis) => match scope {
            SubmitScope::Default => Ok(analysis),
            SubmitScope::Upto => upto_scope(analysis, upto),
            SubmitScope::Only => only_scope(analysis, parent_has_pr),
            SubmitScope::Stack => stack_scope(graph, analysis),
        },
    }
}

/// The bookmark whose pull request has to exist before the target of
/// `analysis` can be submitted alone: the bookmark below the target.
pub fn only_scope_parent(analysis: &SubmissionAnalysis) -> (r: Option<String>)
    ensures
        r.deep_view() == parent_of_target(analysis@),
{
    match position_of_bookmark(analysis.segments.as_slice(), analysis.target_bookmark.as_str()) {
        Some(i) => {
            if i > 0 {
                Some(analysis.segments[i - 1].bookmark.name.clone())
            } else {
                None
            }
        },
        None => None,
    }
}

/// The target of any analysis of a well-formed graph is the bookmark of its
/// last segment, and that bookmark is a candidate of the stack.
proof fn lemma_analysis_target(graph: ChangeGraphView, bookmark: Option<Seq<char>>)
    requires
        graph.well_formed(),
        analysis_of(graph, bookmark) is Ok,
    ensures
        graph.stack is Some,
        analysis_of(graph, bookmark)->Ok_0.segments.len() > 0,
        analysis_of(graph, bookmark)->Ok_0.target_bookmark == analysis_of(
            graph,
            bookmark,
        )->Ok_0.segments.last().bookmark.name,
        stack_has_name(graph.stack->0.segments, analysis_of(graph, bookmark)->Ok_0.target_bookmark),
{
    let segments = graph.stack->0.segments;
    let last = crate::submit::analysis::target_index(segments, bookmark);
    if bookmark is Some {
        let w = choose|i: int|
            0 <= i < segments.len() && (#[trigger] segments[i]).has_name(bookmark->0);
        let f = lemma_first_segment(segments, bookmark->0, segments.len() as int);
        assert(is_first_segment_with(segments, bookmark->0, last));
    }
    let analysis = analysis_of(graph, bookmark)->Ok_0;
    assert(analysis.segments.last() == narrow(segments[last], bookmark));
    crate::submit::analysis::lemma_choice_exists(segments[last].names(), bookmark);
    let c = crate::submit::analysis::choice(segments[last].names(), bookmark);
    assert(segments[last].bookmarks[c].name == analysis.target_bookmark);
    assert(segments[last].has_name(analysis.target_bookmark));
}

/// The first segment before `upto` with a candidate called `name`.
proof fn lemma_first_segment(segments: Seq<BookmarkSegmentView>, name: Seq<char>, upto: int) -> (i:
    int)
    requires
        0 <= upto <= segments.len(),
        exists|k: int| 0 <= k < upto && (#[trigger] segments[k]).has_name(name),
    ensures
        is_first_segment_with(segments, name, i),
        i < upto,
    decreases upto,
{
    if exists|k: int| 0 <= k < upto - 1 && (#[trigger] segments[k]).has_name(name) {
        lemma_first_segment(segments, name, upto - 1)
    } else {
        upto - 1
    }
}

/// Works out what a submission covers under a scope. `parent_has_pr` says
/// whether the bookmark below the target has a pull request; it matters for
/// the scope `Only` alone.
pub fn build_analysis(
    graph: &ChangeGraph,
    bookmark: Option<&str>,
    options: &SubmitOptions<'_>,
    parent_has_pr: bool,
) -> (r: Result<SubmissionAnalysis, Error>)
    requires
        graph@.well_formed(),
    ensures
        match r {
            Ok(analysis) => scoped_analysis(
                graph@,
                optional_text(bookmark),
                options.scope,
                optional_text(options.upto_bookmark),
                parent_has_pr,
            ) == Ok::<SubmissionAnalysisView, ErrorView>(analysis@),
            Err(error) => scoped_analysis(
                graph@,
                optional_text(bookmark),
                options.scope,
                optional_text(options.upto_bookmark),
                parent_has_pr,
            ) == Err::<SubmissionAnalysisView, ErrorView>(error@),
        },
{
    let mut analysis = match analyze_submission(graph, bookmark) {
        Ok(analysis) => analysis,
        Err(error) => {
            return Err(error);
        },
    };
    let ghost base = analysis@;
    let ghost names = narrowed_names(base.segments);
    match options.scope {
        SubmitScope::Default => Ok(analysis),
        SubmitScope::Upto => {
            let upto = match options.upto_bookmark {
                Some(upto) => upto,
                None => {
                    return Err(
                        Error::InvalidArgument(String::from_str("--upto requires a bookmark name")),
                    );
                },
            };
            match position_of_bookmark(analysis.segments.as_slice(), upto) {
                Some(i) => {
                    assert(names.len() == analysis.segments.len());
                    assert(i < analysis.segments.len());
                    analysis.segments.truncate(i + 1);
                    assert(analysis.segments.deep_view() =~= base.segments.take(i + 1));
                    analysis.target_bookmark = String::from_str(upto);
                    Ok(analysis)
                },
                None => Err(
                    Error::InvalidArgument(wrap("Bookmark '", upto, "' not found in stack")),
                ),
            }
        },
        SubmitScope::Only => {
            let at = match position_of_bookmark(
                analysis.segments.as_slice(),
                analysis.target_bookmark.as_str(),
            ) {
                Some(i) => i,
                None => {
                    return Err(
                        Error::InvalidArgument(
                            wrap(
                                "Target bookmark '",
                                analysis.target_bookmark.as_str(),
                                "' not found in analysis",
                            ),
                        ),
                    );
                },
            };
            if at > 0 && !parent_has_pr {
                return Err(
                    Error::InvalidArgument(
                        wrap(
                            "Cannot use --only: parent bookmark '",
                            analysis.segments[at - 1].bookmark.name.as_str(),
                            "' has no PR. Use --upto instead.",
                        ),
                    ),
                );
            }
            let kept = analysis.segments[at].clone();
            let mut segments: Vec<NarrowedBookmarkSegment> = Vec::new();
            segments.push(kept);
            assert(segments.deep_view() =~= seq![base.segments[at as int]]);
            Ok(SubmissionAnalysis { target_bookmark: analysis.target_bookmark, segments })
        },
        SubmitScope::Stack => {
            proof {
                lemma_analysis_target(graph@, optional_text(bookmark));
            }
            let stack = match &graph.stack {
                Some(stack) => stack,
                None => {
                    return Ok(analysis);
                },
            };
            let ghost segments = stack@.segments;
            let target = analysis.target_bookmark.as_str();
            let mut from: usize = 0;
            while from < stack.segments.len() && !crate::submit::analysis::segment_has_name(
                &stack.segments[from],
                target,
            )
                invariant
                    segments == stack@.segments,
                    from <= stack.segments.len(),
                    forall|k: int| 0 <= k < from ==> !(#[trigger] segments[k]).has_name(target@),
                decreases stack.segments.len() - from,
            {
                assert(segments[from as int] == stack.segments@[from as int]@);
                from += 1;
            }
            proof {
                if from == stack.segments.len() {
                    let k = choose|k: int|
                        0 <= k < segments.len() && (#[trigger] segments[k]).has_name(target@);
                    assert(false);
                }
                assert(segments[from as int] == stack.segments@[from as int]@);
                assert(is_first_segment_with(segments, target@, from as int));
                let c = choose|i: int| is_first_segment_with(segments, target@, i);
                if c < from {
                    assert(segments[c].has_name(target@));
                }
                assert(c == from);
            }
            let mut narrowed: Vec<NarrowedBookmarkSegment> = Vec::new();
            let mut i: usize = from;
            while i < stack.segments.len()
                invariant
                    segments == stack@.segments,
                    stack@.well_formed(),
                    from <= i <= stack.segments.len(),
                    narrowed.len() == i - from,
                    forall|k: int|
                        0 <= k < i - from ==> narrowed@[k]@ == narrow(
                            segments[from + k],
                            Some(target@),
                        ),
                decreases stack.segments.len() - i,
            {
                let segment = &stack.segments[i];
                assert(segment@ == segments[i as int]);
                let chosen = select_bookmark_for_segment(segment, Some(target));
                narrowed.push(
                    NarrowedBookmarkSegment {
                        bookmark: chosen,
                        changes: clone_changes(&segment.changes),
                    },
                );
                i += 1;
            }
            assert(narrowed.deep_view() =~= narrowed_from(segments, target@, from as int));
            let leaf = narrowed[narrowed.len() - 1].bookmark.name.clone();
            Ok(SubmissionAnalysis { target_bookmark: leaf, segments: narrowed })
        },
    }
}

/// The segments whose bookmark is among `names`, in order.
pub open spec fn segments_among(segments: Seq<NarrowedSegmentView>, names: Seq<Seq<char>>) -> Seq<
    NarrowedSegmentView,
>
    decreases segments.len(),
{
    if segments.len() == 0 {
        Seq::empty()
    } else {
        let rest = segments_among(segments.drop_last(), names);
        if names.contains(segments.last().bookmark.name) {
            rest.push(segments.last())
        } else {
            rest
        }
    }
}

/// The steps whose bookmark is among `names`, in order.
pub open spec fn steps_among(steps: Seq<StepView>, names: Seq<Seq<char>>) -> Seq<StepView>
    decreases steps.len(),
{
    if steps.len() == 0 {
        Seq::empty()
    } else {
        let rest = steps_among(steps.drop_last(), names);
        if names.contains(steps.last().bookmark_name()) {
            rest.push(steps.last())
        } else {
            rest
        }
    }
}

/// Keeps the segments of `segments` whose bookmark is among `names`.
fn retain_segments(segments: &mut Vec<NarrowedBookmarkSegment>, names: &[String])
    ensures
        final(segments).deep_view() == segments_among(old(segments).deep_view(), names.deep_view()),
{
    let ghost before = segments.deep_view();
    let ghost wanted = names.deep_view();
    let mut all: Vec<NarrowedBookmarkSegment> = Vec::new();
    core::mem::swap(&mut all, segments);
    assert(segments.deep_view() =~= Seq::empty());
    assert(before.take(0) =~= Seq::empty());
    let mut i: usize = 0;
    while i < all.len()
        invariant
            all.deep_view() == before,
            wanted == names.deep_view(),
            i <= all.len(),
            segments.deep_view() == segments_among(before.take(i as int), wanted),
        decreases all.len() - i,
    {
        proof {
            assert(before.take(i + 1).drop_last() =~= before.take(i as int));
            assert(before.take(i + 1).last() == all@[i as int]@);
        }
        if is_among(names, all[i].bookmark.name.as_str()) {
            let ghost list = segments.deep_view();
            segments.push(all[i].clone());
            assert(segments.deep_view() =~= list.push(all@[i as int]@));
        }
        i += 1;
    }
    assert(before.take(i as int) =~= before);
}

/// Reduces a plan to the bookmarks that were selected: segments and steps
/// for other bookmarks are dropped, the order of the rest stays.
pub fn filter_plan_to_selection(plan: &mut SubmissionPlan, selected: &[String])
    ensures
        final(plan)@.segments == segments_among(old(plan)@.segments, selected.deep_view()),
        final(plan)@.execution_steps == steps_among(
            old(plan)@.execution_steps,
            selected.deep_view(),
        ),
        final(plan)@.constraints == old(plan)@.constraints,
        final(plan)@.existing_prs == old(plan)@.existing_prs,
        final(plan)@.remote == old(plan)@.remote,
        final(plan)@.default_branch == old(plan)@.default_branch,
{
    retain_segments(&mut plan.segments, selected);
    let ghost before = plan.execution_steps.deep_view();
    let ghost wanted = selected.deep_view();
    let mut all: Vec<ExecutionStep> = Vec::new();
    core::mem::swap(&mut all, &mut plan.execution_steps);
    assert(plan.execution_steps.deep_view() =~= Seq::empty());
    assert(before.take(0) =~= Seq::empty());
    let mut i: usize = 0;
    while i < all.len()
        invariant
            all.deep_view() == before,
            wanted == selected.deep_view(),
            i <= all.len(),
            plan.execution_steps.deep_view() == steps_among(before.take(i as int), wanted),
            plan@.segments == segments_among(old(plan)@.segments, wanted),
            plan@.constraints == old(plan)@.constraints,
            plan@.existing_prs == old(plan)@.existing_prs,
            plan@.remote == old(plan)@.remote,
            plan@.default_branch == old(plan)@.default_branch,
        decreases all.len() - i,
    {
        proof {
            assert(before.take(i + 1).drop_last() =~= before.take(i as int));
            assert(before.take(i + 1).last() == all@[i as int]@);
        }
        if is_among(selected, all[i].bookmark_name()) {
            let ghost list = plan.execution_steps.deep_view();
            plan.execution_steps.push(all[i].clone());
            assert(plan.execution_steps.deep_view() =~= list.push(all@[i as int]@));
        }
        i += 1;
    }
    assert(before.take(i as int) =~= before);
}

/// The analysis reduced to the tracked bookmarks, unless all bookmarks are
/// submitted or nothing is tracked.
pub open spec fn tracked_scope(
    analysis: SubmissionAnalysisView,
    followed: Seq<Seq<char>>,
    all: bool,
) -> Result<SubmissionAnalysisView, ErrorView> {
    if all || followed.len() == 0 {
        Ok(analysis)
    } else if segments_among(analysis.segments, followed).len() == 0 {
        Err(
            ErrorView::Tracking(
                "No tracked bookmarks in submission scope. Use 'ryu track' to track bookmarks, or 'ryu submit --all'."@,
            ),
        )
    } else {
        Ok(
            SubmissionAnalysisView {
                segments: segments_among(analysis.segments, followed),
                ..analysis
            },
        )
    }
}

/// Rejects a submission of tracked bookmarks where none is tracked.
pub fn require_tracking(followed: &[String], all: bool) -> (r: Result<(), Error>)
    ensures
        match r {
            Ok(_) => all || followed.len() > 0,
            Err(error) => !all && followed.len() == 0 && error@ == ErrorView::Tracking(
                "No bookmarks tracked. Run 'ryu track' first, or use 'ryu submit --all' to submit all bookmarks."@,
            ),
        },
{
    if followed.len() == 0 && !all {
        return Err(
            Error::Tracking(
                String::from_str(
                    "No bookmarks tracked. Run 'ryu track' first, or use 'ryu submit --all' to submit all bookmarks.",
                ),
            ),
        );
    }
    Ok(())
}

/// Reduces an analysis to the tracked bookmarks, unless all bookmarks are
/// submitted or nothing is tracked. Fails where no segment is left.
pub fn filter_to_tracked(analysis: SubmissionAnalysis, followed: &[String], all: bool) -> (r:
    Result<SubmissionAnalysis, Error>)
    ensures
        match r {
            Ok(filtered) => tracked_scope(analysis@, followed.deep_view(), all) == Ok::<
                SubmissionAnalysisView,
                ErrorView,
            >(filtered@),
            Err(error) => tracked_scope(analysis@, followed.deep_view(), all) == Err::<
                SubmissionAnalysisView,
                ErrorView,
            >(error@),
        },
{
    if all || followed.len() == 0 {
        return Ok(analysis);
    }
    let mut analysis = analysis;
    retain_segments(&mut analysis.segments, followed);
    if analysis.segments.len() == 0 {
        return Err(
            Error::Tracking(
                String::from_str(
                    "No tracked bookmarks in submission scope. Use 'ryu track' to track bookmarks, or 'ryu submit --all'.",
                ),
            ),
        );
    }
    Ok(analysis)
}

} // verus!
