//! What the options of a submission change in a plan that is made, and
//! which selections of bookmarks can be submitted.

use crate::error::{Error, ErrorView};
use crate::submit::analysis::{narrowed_names, SubmissionAnalysis, SubmissionAnalysisView};
use crate::submit::plan::{
    ExecutionStep, PlanView, PrToCreate, PrToCreateView, StepView, SubmissionPlan,
};
use crate::submit::scope::SubmitOptions;
use crate::types::{pr_views, PullRequest, PullRequestView};
use vstd::prelude::*;

verus! {

/// The steps that touch only pull requests that exist: no creation, and
/// only the pushes of bookmarks that have a pull request.
pub open spec fn for_existing_prs(steps: Seq<StepView>, existing: Map<Seq<char>, PullRequestView>)
    -> Seq<StepView>
    decreases steps.len(),
{
    if steps.len() == 0 {
        Seq::empty()
    } else {
        let rest = for_existing_prs(steps.drop_last(), existing);
        let keep = match steps.last() {
            StepView::CreatePr(_) => false,
            StepView::Push(bookmark) => existing.contains_key(bookmark.name),
            _ => true,
        };
        if keep {
            rest.push(steps.last())
        } else {
            rest
        }
    }
}

/// The step with its pull request, if it creates one, created as a draft.
pub open spec fn as_draft(step: StepView) -> StepView {
    match step {
        StepView::CreatePr(create) => StepView::CreatePr(PrToCreateView { draft: true, ..create }),
        _ => step,
    }
}

/// One publication for each pull request among `names` that is a draft, in
/// the order of `names`.
pub open spec fn draft_publications(
    names: Seq<Seq<char>>,
    existing: Map<Seq<char>, PullRequestView>,
) -> Seq<StepView>
    decreases names.len(),
{
    if names.len() == 0 {
        Seq::empty()
    } else {
        let rest = draft_publications(names.drop_last(), existing);
        if existing.contains_key(names.last()) && existing[names.last()].is_draft {
            rest.push(StepView::PublishPr(existing[names.last()]))
        } else {
            rest
        }
    }
}

/// The steps of a plan after the options were applied to them.
pub open spec fn steps_with_options(
    steps: Seq<StepView>,
    names: Seq<Seq<char>>,
    existing: Map<Seq<char>, PullRequestView>,
    update_only: bool,
    draft: bool,
    publish: bool,
) -> Seq<StepView> {
    let kept = if update_only {
        for_existing_prs(steps, existing)
    } else {
        steps
    };
    let marked = if draft && !publish {
        kept.map_values(|step: StepView| as_draft(step))
    } else {
        kept
    };
    if publish {
        marked + draft_publications(names, existing)
    } else {
        marked
    }
}

/// Applies the options of a submission to its plan. With `update_only` no
/// pull request is created and only bookmarks with a pull request are
/// pushed. With `draft`, unless `publish` is set as well, new pull requests
/// are created as drafts. With `publish` a publication is appended for every
/// existing pull request that is a draft, in the order in which the pull
/// requests were found.
pub fn apply_plan_options(plan: &mut SubmissionPlan, options: &SubmitOptions<'_>)
    ensures
        final(plan)@.execution_steps == steps_with_options(
            old(plan)@.execution_steps,
            old(plan).existing_prs.names(),
            old(plan)@.existing_prs,
            options.update_only,
            options.draft,
            options.publish,
        ),
        final(plan)@.segments == old(plan)@.segments,
        final(plan)@.constraints == old(plan)@.constraints,
        final(plan).existing_prs == old(plan).existing_prs,
        final(plan)@.remote == old(plan)@.remote,
        final(plan)@.default_branch == old(plan)@.default_branch,
{
    let ghost existing = plan@.existing_prs;
    let ghost names = plan.existing_prs.names();
    let ghost given = plan.execution_steps.deep_view();
    if options.update_only {
        let mut all: Vec<ExecutionStep> = Vec::new();
        core::mem::swap(&mut all, &mut plan.execution_steps);
        assert(plan.execution_steps.deep_view() =~= Seq::empty());
        assert(given.take(0) =~= Seq::empty());
        let mut i: usize = 0;
        while i < all.len()
            invariant
                all.deep_view() == given,
                existing == pr_views(plan.existing_prs@),
                plan.existing_prs == old(plan).existing_prs,
                plan@.segments == old(plan)@.segments,
                plan@.constraints == old(plan)@.constraints,
                plan@.remote == old(plan)@.remote,
                plan@.default_branch == old(plan)@.default_branch,
                i <= all.len(),
                plan.execution_steps.deep_view() == for_existing_prs(
                    given.take(i as int),
                    existing,
                ),
            decreases all.len() - i,
        {
            proof {
                assert(given.take(i + 1).drop_last() =~= given.take(i as int));
                assert(given.take(i + 1).last() == all@[i as int]@);
            }
            let keep = match &all[i] {
                ExecutionStep::CreatePr(_) => false,
                ExecutionStep::Push(bookmark) => plan.existing_prs.contains_key(
                    bookmark.name.as_str(),
                ),
                _ => true,
            };
            if keep {
                let ghost list = plan.execution_steps.deep_view();
                plan.execution_steps.push(all[i].clone());
                assert(plan.execution_steps.deep_view() =~= list.push(all@[i as int]@));
            }
            i += 1;
        }
        assert(given.take(i as int) =~= given);
    }
    let ghost kept = plan.execution_steps.deep_view();
    if options.draft && !options.publish {
        let mut all: Vec<ExecutionStep> = Vec::new();
        core::mem::swap(&mut all, &mut plan.execution_steps);
        let mut i: usize = 0;
        while i < all.len()
            invariant
                all.deep_view() == kept,
                plan.existing_prs == old(plan).existing_prs,
                plan@.segments == old(plan)@.segments,
                plan@.constraints == old(plan)@.constraints,
                plan@.remote == old(plan)@.remote,
                plan@.default_branch == old(plan)@.default_branch,
                i <= all.len(),
                plan.execution_steps.len() == i,
                forall|k: int| 0 <= k < i ==> plan.execution_steps@[k]@ == as_draft(kept[k]),
            decreases all.len() - i,
        {
            let step = match &all[i] {
                ExecutionStep::CreatePr(create) => ExecutionStep::CreatePr(
                    PrToCreate {
                        bookmark: create.bookmark.clone(),
                        base_branch: create.base_branch.clone(),
                        title: create.title.clone(),
                        draft: true,
                    },
                ),
                other => other.clone(),
            };
            assert(step@ == as_draft(all@[i as int]@));
            assert(kept[i as int] == all@[i as int]@);
            plan.execution_steps.push(step);
            i += 1;
        }
        assert(plan.execution_steps.deep_view() =~= kept.map_values(
            |step: StepView| as_draft(step),
        ));
    }
    let ghost marked = plan.execution_steps.deep_view();
    if options.publish {
        let count = plan.existing_prs.len();
        let mut i: usize = 0;
        assert(names.take(0) =~= Seq::empty());
        assert(marked + draft_publications(names.take(0), existing) =~= marked);
        while i < count
            invariant
                names == plan.existing_prs.names(),
                existing == pr_views(plan.existing_prs@),
                plan.existing_prs == old(plan).existing_prs,
                plan.existing_prs.well_formed(),
                plan@.segments == old(plan)@.segments,
                plan@.constraints == old(plan)@.constraints,
                plan@.remote == old(plan)@.remote,
                plan@.default_branch == old(plan)@.default_branch,
                count == names.len(),
                i <= count,
                plan.execution_steps.deep_view() == marked + draft_publications(
                    names.take(i as int),
                    existing,
                ),
            decreases count - i,
        {
            let pr = plan.existing_prs.value_at(i);
            proof {
                assert(names.take(i + 1).drop_last() =~= names.take(i as int));
                assert(names.take(i + 1).last() == names[i as int]);
                assert(existing.contains_key(names[i as int]));
                assert(existing[names[i as int]] == pr@);
            }
            if pr.is_draft {
                let ghost list = plan.execution_steps.deep_view();
                let step = ExecutionStep::PublishPr(pr.clone());
                plan.execution_steps.push(step);
                assert(plan.execution_steps.deep_view() =~= list.push(step@));
                assert(plan.execution_steps.deep_view() =~= marked + draft_publications(
                    names.take(i as int),
                    existing,
                ).push(step@));
            }
            i += 1;
        }
        assert(names.take(i as int) =~= names);
    }
}

/// Index `g` is a gap of the selection: it is not selected, but an index
/// below it and an index above it are.
pub open spec fn is_gap(selections: Seq<usize>, g: int) -> bool {
    &&& forall|k: int| 0 <= k < selections.len() ==> selections[k] != g
    &&& exists|k: int| 0 <= k < selections.len() && selections[k] < g
    &&& exists|k: int| 0 <= k < selections.len() && selections[k] > g
}

/// Index `g` is the lowest gap of the selection.
pub open spec fn is_first_gap(selections: Seq<usize>, g: int) -> bool {
    is_gap(selections, g) && forall|h: int| 0 <= h < g ==> !is_gap(selections, h)
}

/// The error for a selection with a gap at the bookmark called `name`.
pub open spec fn gap_error(name: Seq<char>) -> ErrorView {
    ErrorView::InvalidArgument(
        "Cannot submit - selection has gap at '"@ + name
            + "'. Stacked PRs must be contiguous."@,
    )
}

/// What a selection of segments yields: the names of the selected
/// bookmarks in the order of the selection, or the error for its lowest gap.
pub open spec fn selection_of(analysis: SubmissionAnalysisView, selections: Seq<usize>) -> Result<
    Seq<Seq<char>>,
    ErrorView,
> {
    if exists|g: int| is_gap(selections, g) {
        Err(
            gap_error(
                analysis.segments[choose|g: int| is_first_gap(selections, g)].bookmark.name,
            ),
        )
    } else {
        Ok(selections.map_values(|i: usize| analysis.segments[i as int].bookmark.name))
    }
}

/// Whether `index` is among `selections`.
fn is_selected(selections: &[usize], index: usize) -> (r: bool)
    ensures
        r == exists|k: int| 0 <= k < selections.len() && selections@[k] == index,
{
    let mut k: usize = 0;
    while k < selections.len()
        invariant
            k <= selections.len(),
            forall|j: int| 0 <= j < k ==> selections@[j] != index,
        decreases selections.len() - k,
    {
        if selections[k] == index {
            return true;
        }
        k += 1;
    }
    false
}

/// Checks a selection of segments, given by their indices: the selected
/// bookmarks must follow each other in the stack without a gap. Returns the
/// names of the selected bookmarks.
pub fn validate_selection(analysis: &SubmissionAnalysis, selections: &[usize]) -> (r: Result<
    Vec<String>,
    Error,
>)
    requires
        forall|k: int| 0 <= k < selections.len() ==> selections@[k] < analysis.segments.len(),
    ensures
        match r {
            Ok(names) => selection_of(analysis@, selections@) == Ok::<Seq<Seq<char>>, ErrorView>(
                names.deep_view(),
            ),
            Err(error) => selection_of(analysis@, selections@) == Err::<
                Seq<Seq<char>>,
                ErrorView,
            >(error@),
        },
{
    let ghost chosen = selections@;
    if selections.len() > 0 {
        let mut lowest = selections[0];
        let mut highest = selections[0];
        let mut k: usize = 1;
        while k < selections.len()
            invariant
                chosen == selections@,
                1 <= k <= selections.len(),
                exists|j: int| 0 <= j < k && chosen[j] == lowest,
                exists|j: int| 0 <= j < k && chosen[j] == highest,
                forall|j: int| 0 <= j < k ==> lowest <= (#[trigger] chosen[j]) && chosen[j] <= highest,
            decreases selections.len() - k,
        {
            if selections[k] < lowest {
                lowest = selections[k];
            }
            if selections[k] > highest {
                highest = selections[k];
            }
            k += 1;
        }
        let mut g = lowest;
        while g < highest
            invariant
                chosen == selections@,
                lowest <= g <= highest,
                exists|j: int| 0 <= j < chosen.len() && chosen[j] == lowest,
                exists|j: int| 0 <= j < chosen.len() && chosen[j] == highest,
                forall|j: int|
                    0 <= j < chosen.len() ==> lowest <= (#[trigger] chosen[j]) && chosen[j] <= highest,
                forall|h: int| lowest <= h < g ==> !is_gap(chosen, h),
                forall|j: int| 0 <= j < chosen.len() ==> chosen[j] < analysis.segments.len(),
            decreases highest - g,
        {
            if !is_selected(selections, g) {
                proof {
                    let below = choose|j: int| 0 <= j < chosen.len() && chosen[j] == lowest;
                    let above = choose|j: int| 0 <= j < chosen.len() && chosen[j] == highest;
                    assert(chosen[below] < g);
                    assert(chosen[above] > g);
                    assert(is_gap(chosen, g as int));
                    assert forall|h: int| 0 <= h < g implies !is_gap(chosen, h) by {
                        if h < lowest && is_gap(chosen, h) {
                            let j = choose|j: int| 0 <= j < chosen.len() && chosen[j] < h;
                        }
                    }
                    assert(is_first_gap(chosen, g as int));
                    let c = choose|c: int| is_first_gap(chosen, c);
                    assert(c == g);
                }
                let mut message = String::from_str("Cannot submit - selection has gap at '");
                message.append(analysis.segments[g].bookmark.name.as_str());
                message.append("'. Stacked PRs must be contiguous.");
                return Err(Error::InvalidArgument(message));
            }
            g += 1;
        }
        proof {
            assert forall|h: int| !is_gap(chosen, h) by {
                if is_gap(chosen, h) {
                    let a = choose|j: int| 0 <= j < chosen.len() && chosen[j] < h;
                    let b = choose|j: int| 0 <= j < chosen.len() && chosen[j] > h;
                    assert(lowest <= h < highest);
                }
            }
        }
    } else {
        assert forall|h: int| !is_gap(chosen, h) by {}
    }
    let mut names: Vec<String> = Vec::new();
    let mut k: usize = 0;
    while k < selections.len()
        invariant
            chosen == selections@,
            k <= selections.len(),
            names.len() == k,
            forall|j: int| 0 <= j < chosen.len() ==> chosen[j] < analysis.segments.len(),
            forall|j: int|
                0 <= j < k ==> names@[j]@ == analysis.segments@[chosen[j] as int]@.bookmark.name,
        decreases selections.len() - k,
    {
        names.push(analysis.segments[selections[k]].bookmark.name.clone());
        k += 1;
    }
    assert(names.deep_view() =~= chosen.map_values(
        |i: usize| analysis@.segments[i as int].bookmark.name,
    ));
    Ok(names)
}

} // verus!
