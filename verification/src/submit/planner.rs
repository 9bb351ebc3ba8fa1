//! Phase 2, the plan: from the analysed stack and the pull requests that
//! exist to the ordered operations.

use crate::error::{Error, ErrorView};
use crate::name_map::NameMap;
use crate::submit::analysis::{
    generate_pr_title, get_base_branch, narrowed_names, SubmissionAnalysis, SubmissionAnalysisView,
};
use crate::submit::constraints::{
    collect_constraints, constraints_of, registry_in_range, resolve_constraints, resolved_edges,
};
use crate::submit::nodes::{
    base_updates, bookmark_names, build_execution_nodes, create_names, extra_pushes, nodes_of,
    planned_steps, publications, registry_of, stack_creates, stack_pushes,
};
use crate::submit::plan::{
    ConstraintView, ExecutionConstraint, ExecutionStep, PlanView, PrBaseUpdate, PrBaseUpdateView,
    PrToCreate, PrToCreateView, StepKind, StepView, SubmissionPlan,
};
use crate::submit::registry::RegistryView;
use crate::submit::schedule::{sorted_steps, topo_sort_steps};
use crate::types::{
    clone_narrowed, pr_views, Bookmark, BookmarkView, NarrowedBookmarkSegment,
    NarrowedSegmentView, PullRequest, PullRequestView,
};
use vstd::prelude::*;

verus! {

/// The kind of a step and the name of its bookmark: what a step is
/// registered under.
pub open spec fn step_key(step: StepView) -> (StepKind, Seq<char>) {
    (step.kind(), step.bookmark_name())
}

/// No two steps are registered under one kind and name.
pub open spec fn keys_distinct(steps: Seq<StepView>) -> bool {
    forall|i: int, j: int|
        0 <= i < j < steps.len() ==> step_key(#[trigger] steps[i]) != step_key(#[trigger] steps[j])
}

/// The names of the bookmarks whose pull requests change their base.
pub open spec fn update_names(updates: Seq<PrBaseUpdateView>) -> Seq<Seq<char>> {
    updates.map_values(|u: PrBaseUpdateView| u.bookmark.name)
}

/// The head branches of the pull requests to publish.
pub open spec fn publish_names(prs: Seq<PullRequestView>) -> Seq<Seq<char>> {
    prs.map_values(|pr: PullRequestView| pr.head_ref)
}

/// Names are identities: no bookmark occurs twice in the stack, no pull
/// request changes its base twice, none is published twice.
pub open spec fn inputs_distinct(
    segments: Seq<NarrowedSegmentView>,
    updates: Seq<PrBaseUpdateView>,
    publishes: Seq<PullRequestView>,
) -> bool {
    &&& narrowed_names(segments).no_duplicates()
    &&& update_names(updates).no_duplicates()
    &&& publish_names(publishes).no_duplicates()
}

/// Whatever the registry holds for a kind and a name is the position of a
/// step of that kind and name, and it holds no more entries than steps.
pub proof fn lemma_registry_entries(steps: Seq<StepView>)
    requires
        steps.len() <= usize::MAX,
    ensures
        registry_of(steps).count <= steps.len(),
        forall|kind: StepKind, name: Seq<char>|
            (#[trigger] registry_of(steps).lookup(kind, name)) matches Some(i) ==> i < steps.len()
                && step_key(steps[i as int]) == (kind, name),
    decreases steps.len(),
{
    if steps.len() > 0 {
        let before = steps.drop_last();
        lemma_registry_entries(before);
        let last = steps.last();
        let at = (steps.len() - 1) as usize;
        let old_registry = registry_of(before);
        let new_registry = registry_of(steps);
        assert(new_registry == old_registry.with(last.kind(), last.bookmark_name(), at));
        assert forall|kind: StepKind, name: Seq<char>|
            (#[trigger] new_registry.lookup(kind, name)) is Some implies new_registry.lookup(
            kind,
            name,
        )->0 < steps.len() && step_key(steps[new_registry.lookup(kind, name)->0 as int]) == (
            kind,
            name,
        ) by {
            if kind == last.kind() && name == last.bookmark_name() {
                assert(new_registry.of_kind(kind) == old_registry.of_kind(kind).insert(name, at));
                assert(new_registry.lookup(kind, name) == Some(at));
                assert(steps[at as int] == last);
            } else {
                if kind == last.kind() {
                    assert(new_registry.of_kind(kind) == old_registry.of_kind(kind).insert(
                        last.bookmark_name(),
                        at,
                    ));
                } else {
                    assert(new_registry.of_kind(kind) == old_registry.of_kind(kind));
                }
                assert(new_registry.lookup(kind, name) == old_registry.lookup(kind, name));
                let i = old_registry.lookup(kind, name)->0;
                assert(before[i as int] == steps[i as int]);
            }
        }
    }
}

/// Where no two steps share a kind and name, every step is registered at
/// its own position, and the registry holds as many entries as steps.
pub proof fn lemma_registry_exact(steps: Seq<StepView>)
    requires
        keys_distinct(steps),
        steps.len() <= usize::MAX,
    ensures
        registry_of(steps).count == steps.len(),
        forall|i: int|
            0 <= i < steps.len() ==> registry_of(steps).lookup(
                (#[trigger] steps[i]).kind(),
                steps[i].bookmark_name(),
            ) == Some(i as usize),
        registry_in_range(registry_of(steps)),
    decreases steps.len(),
{
    lemma_registry_entries(steps);
    if steps.len() > 0 {
        let before = steps.drop_last();
        assert(keys_distinct(before)) by {
            assert forall|i: int, j: int| 0 <= i < j < before.len() implies step_key(
                #[trigger] before[i],
            ) != step_key(#[trigger] before[j]) by {
                assert(before[i] == steps[i] && before[j] == steps[j]);
            }
        }
        lemma_registry_exact(before);
        lemma_registry_entries(before);
        let last = steps.last();
        let found = registry_of(before).lookup(last.kind(), last.bookmark_name());
        if found is Some {
            let i = found->0;
            assert(step_key(before[i as int]) == step_key(last));
            assert(before[i as int] == steps[i as int]);
            assert(steps[steps.len() - 1] == last);
        }
        assert forall|i: int| 0 <= i < steps.len() implies registry_of(steps).lookup(
            (#[trigger] steps[i]).kind(),
            steps[i].bookmark_name(),
        ) == Some(i as usize) by {
            if i < before.len() {
                assert(before[i] == steps[i]);
                assert(step_key(steps[i]) != step_key(steps[steps.len() - 1]));
            }
        }
    }
}

/// All steps are of one kind.
pub open spec fn all_of_kind(steps: Seq<StepView>, kind: StepKind) -> bool {
    forall|i: int| 0 <= i < steps.len() ==> (#[trigger] steps[i]).kind() == kind
}

/// The names that the steps are about.
pub open spec fn step_names(steps: Seq<StepView>) -> Seq<Seq<char>> {
    steps.map_values(|s: StepView| s.bookmark_name())
}

/// The pushes of the stack are pushes of bookmarks that were asked for,
/// each for a name of the stack, and no name twice.
pub proof fn lemma_stack_pushes(names: Seq<Seq<char>>, pushes: Seq<BookmarkView>)
    requires
        names.no_duplicates(),
    ensures
        all_of_kind(stack_pushes(names, pushes), StepKind::Push),
        step_names(stack_pushes(names, pushes)).no_duplicates(),
        forall|i: int|
            0 <= i < stack_pushes(names, pushes).len() ==> names.contains(
                (#[trigger] stack_pushes(names, pushes)[i]).bookmark_name(),
            ),
        forall|i: int|
            0 <= i < stack_pushes(names, pushes).len() ==> bookmark_names(pushes).contains(
                (#[trigger] stack_pushes(names, pushes)[i]).bookmark_name(),
            ),
    decreases names.len(),
{
    if names.len() > 0 {
        let shorter = names.drop_last();
        lemma_stack_pushes(shorter, pushes);
        let rest = stack_pushes(shorter, pushes);
        let all = stack_pushes(names, pushes);
        assert forall|i: int| 0 <= i < rest.len() implies names.contains(
            (#[trigger] rest[i]).bookmark_name(),
        ) && rest[i].bookmark_name() != names.last() by {
            let k = choose|k: int|
                0 <= k < shorter.len() && shorter[k] == rest[i].bookmark_name();
            assert(names[k] == shorter[k]);
        }
        if bookmark_names(pushes).contains(names.last()) {
            let j = crate::text::first_position(bookmark_names(pushes), names.last());
            crate::text::lemma_first_position(bookmark_names(pushes), names.last());
            assert(all[rest.len() as int] == StepView::Push(pushes[j]));
            assert(names[names.len() - 1] == names.last());
            assert forall|i: int| 0 <= i < all.len() implies names.contains(
                (#[trigger] all[i]).bookmark_name(),
            ) by {
                if i < rest.len() {
                    assert(all[i] == rest[i]);
                }
            }
            assert forall|i: int| 0 <= i < all.len() implies bookmark_names(pushes).contains(
                (#[trigger] all[i]).bookmark_name(),
            ) by {
                if i < rest.len() {
                    assert(all[i] == rest[i]);
                } else {
                    assert(bookmark_names(pushes)[j] == names.last());
                }
            }
            assert forall|a: int, b: int|
                0 <= a < step_names(all).len() && 0 <= b < step_names(all).len() && a
                    != b implies step_names(all)[a] != step_names(all)[b] by {
                if a < rest.len() && b < rest.len() {
                    assert(step_names(rest)[a] != step_names(rest)[b]);
                    assert(all[a] == rest[a] && all[b] == rest[b]);
                } else if a < rest.len() {
                    assert(all[a] == rest[a]);
                } else if b < rest.len() {
                    assert(all[b] == rest[b]);
                }
            }
        }
    }
}

/// The other pushes are pushes of bookmarks that were asked for, none for
/// a name of the stack, and no name twice.
pub proof fn lemma_extra_pushes(names: Seq<Seq<char>>, pushes: Seq<BookmarkView>)
    ensures
        all_of_kind(extra_pushes(names, pushes), StepKind::Push),
        step_names(extra_pushes(names, pushes)).no_duplicates(),
        forall|i: int|
            0 <= i < extra_pushes(names, pushes).len() ==> !names.contains(
                (#[trigger] extra_pushes(names, pushes)[i]).bookmark_name(),
            ) && bookmark_names(pushes).contains(extra_pushes(names, pushes)[i].bookmark_name()),
    decreases pushes.len(),
{
    if pushes.len() > 0 {
        let shorter = pushes.drop_last();
        lemma_extra_pushes(names, shorter);
        let rest = extra_pushes(names, shorter);
        let all = extra_pushes(names, pushes);
        let name = pushes.last().name;
        assert(bookmark_names(pushes)[pushes.len() - 1] == name);
        assert forall|i: int| 0 <= i < rest.len() implies bookmark_names(pushes).contains(
            (#[trigger] rest[i]).bookmark_name(),
        ) by {
            let k = choose|k: int|
                0 <= k < bookmark_names(shorter).len() && bookmark_names(shorter)[k]
                    == rest[i].bookmark_name();
            assert(bookmark_names(pushes)[k] == bookmark_names(shorter)[k]);
        }
        if !names.contains(name) && !bookmark_names(shorter).contains(name) {
            assert(all[rest.len() as int] == StepView::Push(pushes[pushes.len() - 1]));
            assert forall|i: int| 0 <= i < all.len() implies !names.contains(
                (#[trigger] all[i]).bookmark_name(),
            ) && bookmark_names(pushes).contains(all[i].bookmark_name()) by {
                if i < rest.len() {
                    assert(all[i] == rest[i]);
                }
            }
            assert forall|a: int, b: int|
                0 <= a < step_names(all).len() && 0 <= b < step_names(all).len() && a
                    != b implies step_names(all)[a] != step_names(all)[b] by {
                if a < rest.len() && b < rest.len() {
                    assert(step_names(rest)[a] != step_names(rest)[b]);
                    assert(all[a] == rest[a] && all[b] == rest[b]);
                } else if a < rest.len() {
                    assert(all[a] == rest[a]);
                    assert(bookmark_names(shorter).contains(rest[a].bookmark_name()));
                } else if b < rest.len() {
                    assert(all[b] == rest[b]);
                    assert(bookmark_names(shorter).contains(rest[b].bookmark_name()));
                }
            }
        }
    }
}

/// The creations are creations that were asked for, each for a name of the
/// stack, and no name twice.
pub proof fn lemma_stack_creates(names: Seq<Seq<char>>, creates: Seq<PrToCreateView>)
    requires
        names.no_duplicates(),
    ensures
        all_of_kind(stack_creates(names, creates), StepKind::CreatePr),
        step_names(stack_creates(names, creates)).no_duplicates(),
        forall|i: int|
            0 <= i < stack_creates(names, creates).len() ==> names.contains(
                (#[trigger] stack_creates(names, creates)[i]).bookmark_name(),
            ),
        forall|i: int|
            0 <= i < stack_creates(names, creates).len() ==> create_names(creates).contains(
                (#[trigger] stack_creates(names, creates)[i]).bookmark_name(),
            ),
    decreases names.len(),
{
    if names.len() > 0 {
        let shorter = names.drop_last();
        lemma_stack_creates(shorter, creates);
        let rest = stack_creates(shorter, creates);
        let all = stack_creates(names, creates);
        assert forall|i: int| 0 <= i < rest.len() implies names.contains(
            (#[trigger] rest[i]).bookmark_name(),
        ) && rest[i].bookmark_name() != names.last() by {
            let k = choose|k: int|
                0 <= k < shorter.len() && shorter[k] == rest[i].bookmark_name();
            assert(names[k] == shorter[k]);
        }
        if create_names(creates).contains(names.last()) {
            let j = crate::text::first_position(create_names(creates), names.last());
            crate::text::lemma_first_position(create_names(creates), names.last());
            assert(all[rest.len() as int] == StepView::CreatePr(creates[j]));
            assert(names[names.len() - 1] == names.last());
            assert forall|i: int| 0 <= i < all.len() implies names.contains(
                (#[trigger] all[i]).bookmark_name(),
            ) by {
                if i < rest.len() {
                    assert(all[i] == rest[i]);
                }
            }
            assert forall|i: int| 0 <= i < all.len() implies create_names(creates).contains(
                (#[trigger] all[i]).bookmark_name(),
            ) by {
                if i < rest.len() {
                    assert(all[i] == rest[i]);
                } else {
                    assert(create_names(creates)[j] == names.last());
                }
            }
            assert forall|a: int, b: int|
                0 <= a < step_names(all).len() && 0 <= b < step_names(all).len() && a
                    != b implies step_names(all)[a] != step_names(all)[b] by {
                if a < rest.len() && b < rest.len() {
                    assert(step_names(rest)[a] != step_names(rest)[b]);
                    assert(all[a] == rest[a] && all[b] == rest[b]);
                } else if a < rest.len() {
                    assert(all[a] == rest[a]);
                } else if b < rest.len() {
                    assert(all[b] == rest[b]);
                }
            }
        }
    }
}

/// Two runs of steps without a shared kind and name make one such run.
proof fn lemma_keys_distinct_concat(a: Seq<StepView>, b: Seq<StepView>)
    requires
        keys_distinct(a),
        keys_distinct(b),
        forall|i: int, j: int|
            0 <= i < a.len() && 0 <= j < b.len() ==> step_key(#[trigger] a[i]) != step_key(
                #[trigger] b[j],
            ),
    ensures
        keys_distinct(a + b),
{
    assert forall|i: int, j: int| 0 <= i < j < (a + b).len() implies step_key(
        #[trigger] (a + b)[i],
    ) != step_key(#[trigger] (a + b)[j]) by {
        if j < a.len() {
            assert((a + b)[i] == a[i] && (a + b)[j] == a[j]);
        } else if i < a.len() {
            assert((a + b)[i] == a[i] && (a + b)[j] == b[j - a.len()]);
        } else {
            assert((a + b)[i] == b[i - a.len()] && (a + b)[j] == b[j - a.len()]);
        }
    }
}

/// Steps of one kind whose names differ share no kind and name.
proof fn lemma_keys_distinct_by_names(steps: Seq<StepView>)
    requires
        step_names(steps).no_duplicates(),
    ensures
        keys_distinct(steps),
{
    assert forall|i: int, j: int| 0 <= i < j < steps.len() implies step_key(#[trigger] steps[i])
        != step_key(#[trigger] steps[j]) by {
        assert(step_names(steps)[i] != step_names(steps)[j]);
    }
}

/// Where names are identities, no two planned steps share a kind and name.
pub proof fn lemma_planned_steps_distinct(
    segments: Seq<NarrowedSegmentView>,
    pushes: Seq<BookmarkView>,
    updates: Seq<PrBaseUpdateView>,
    creates: Seq<PrToCreateView>,
    publishes: Seq<PullRequestView>,
)
    requires
        inputs_distinct(segments, updates, publishes),
    ensures
        keys_distinct(planned_steps(segments, pushes, updates, creates, publishes)),
{
    let names = narrowed_names(segments);
    let a = stack_pushes(names, pushes);
    let b = extra_pushes(names, pushes);
    let c = base_updates(updates);
    let d = stack_creates(names, creates);
    let e = publications(publishes);
    lemma_stack_pushes(names, pushes);
    lemma_extra_pushes(names, pushes);
    lemma_stack_creates(names, creates);
    lemma_keys_distinct_by_names(a);
    lemma_keys_distinct_by_names(b);
    lemma_keys_distinct_by_names(d);
    assert(keys_distinct(c)) by {
        assert forall|i: int, j: int| 0 <= i < j < c.len() implies step_key(#[trigger] c[i])
            != step_key(#[trigger] c[j]) by {
            assert(update_names(updates)[i] != update_names(updates)[j]);
        }
    }
    assert(keys_distinct(e)) by {
        assert forall|i: int, j: int| 0 <= i < j < e.len() implies step_key(#[trigger] e[i])
            != step_key(#[trigger] e[j]) by {
            assert(publish_names(publishes)[i] != publish_names(publishes)[j]);
        }
    }
    lemma_keys_distinct_concat(a, b);
    assert(all_of_kind(a + b, StepKind::Push)) by {
        assert forall|i: int| 0 <= i < (a + b).len() implies (#[trigger] (a + b)[i]).kind()
            == StepKind::Push by {
            if i < a.len() {
                assert((a + b)[i] == a[i]);
            } else {
                assert((a + b)[i] == b[i - a.len()]);
            }
        }
    }
    lemma_keys_distinct_concat(a + b, c);
    assert forall|i: int, j: int| 0 <= i < (a + b + c).len() && 0 <= j < d.len() implies step_key(
        #[trigger] (a + b + c)[i],
    ) != step_key(#[trigger] d[j]) by {
        if i < (a + b).len() {
            assert((a + b + c)[i] == (a + b)[i]);
        } else {
            assert((a + b + c)[i] == c[i - (a + b).len()]);
        }
    }
    lemma_keys_distinct_concat(a + b + c, d);
    assert forall|i: int, j: int|
        0 <= i < (a + b + c + d).len() && 0 <= j < e.len() implies step_key(
        #[trigger] (a + b + c + d)[i],
    ) != step_key(#[trigger] e[j]) by {
        if i < (a + b).len() {
            assert((a + b + c + d)[i] == (a + b)[i]);
        } else if i < (a + b + c).len() {
            assert((a + b + c + d)[i] == c[i - (a + b).len()]);
        } else {
            assert((a + b + c + d)[i] == d[i - (a + b + c).len()]);
        }
    }
    lemma_keys_distinct_concat(a + b + c + d, e);
}

/// The edges between the planned steps.
pub open spec fn planned_edges(
    segments: Seq<NarrowedSegmentView>,
    pushes: Seq<BookmarkView>,
    updates: Seq<PrBaseUpdateView>,
    creates: Seq<PrToCreateView>,
    publishes: Seq<PullRequestView>,
) -> Seq<Seq<usize>> {
    resolved_edges(
        constraints_of(segments, updates, creates),
        registry_of(planned_steps(segments, pushes, updates, creates, publishes)),
    )
}

/// The planned steps in the order in which they run, or the cycle error.
pub open spec fn scheduled(
    segments: Seq<NarrowedSegmentView>,
    pushes: Seq<BookmarkView>,
    updates: Seq<PrBaseUpdateView>,
    creates: Seq<PrToCreateView>,
    publishes: Seq<PullRequestView>,
) -> Result<Seq<StepView>, ErrorView> {
    sorted_steps(
        nodes_of(planned_steps(segments, pushes, updates, creates, publishes)),
        planned_edges(segments, pushes, updates, creates, publishes),
    )
}

/// Orders the operations of a plan: collects the obligations, makes the
/// nodes, turns the obligations into edges and sorts. Returns the
/// obligations together with the operations in run order, or the cycle
/// error where the obligations contradict each other.
pub fn build_execution_steps(
    segments: &[NarrowedBookmarkSegment],
    bookmarks_needing_push: &[Bookmark],
    prs_to_update_base: &[PrBaseUpdate],
    prs_to_create: &[PrToCreate],
    prs_to_publish: &[PullRequest],
) -> (r: Result<(Vec<ExecutionConstraint>, Vec<ExecutionStep>), Error>)
    requires
        inputs_distinct(
            segments.deep_view(),
            prs_to_update_base.deep_view(),
            prs_to_publish.deep_view(),
        ),
    ensures
        planned_steps(
            segments.deep_view(),
            bookmarks_needing_push.deep_view(),
            prs_to_update_base.deep_view(),
            prs_to_create.deep_view(),
            prs_to_publish.deep_view(),
        ).len() <= usize::MAX,
        match r {
            Ok((constraints, steps)) => {
                &&& constraints.deep_view() == constraints_of(
                    segments.deep_view(),
                    prs_to_update_base.deep_view(),
                    prs_to_create.deep_view(),
                )
                &&& scheduled(
                    segments.deep_view(),
                    bookmarks_needing_push.deep_view(),
                    prs_to_update_base.deep_view(),
                    prs_to_create.deep_view(),
                    prs_to_publish.deep_view(),
                ) == Ok::<Seq<StepView>, ErrorView>(steps.deep_view())
            },
            Err(error) => scheduled(
                segments.deep_view(),
                bookmarks_needing_push.deep_view(),
                prs_to_update_base.deep_view(),
                prs_to_create.deep_view(),
                prs_to_publish.deep_view(),
            ) == Err::<Seq<StepView>, ErrorView>(error@),
        },
{
    let constraints = collect_constraints(segments, prs_to_update_base, prs_to_create);
    let (nodes, registry) = build_execution_nodes(
        segments,
        bookmarks_needing_push,
        prs_to_update_base,
        prs_to_create,
        prs_to_publish,
    );
    proof {
        let steps = planned_steps(
            segments.deep_view(),
            bookmarks_needing_push.deep_view(),
            prs_to_update_base.deep_view(),
            prs_to_create.deep_view(),
            prs_to_publish.deep_view(),
        );
        assert(nodes.deep_view().len() == nodes.len());
        lemma_planned_steps_distinct(
            segments.deep_view(),
            bookmarks_needing_push.deep_view(),
            prs_to_update_base.deep_view(),
            prs_to_create.deep_view(),
            prs_to_publish.deep_view(),
        );
        lemma_registry_exact(steps);
    }
    let edges = resolve_constraints(constraints.as_slice(), &registry);
    match topo_sort_steps(nodes.as_slice(), edges.as_slice()) {
        Ok(steps) => Ok((constraints, steps)),
        Err(error) => Err(error),
    }
}

/// The bookmarks of the stack that have to be pushed, from the bottom up.
pub open spec fn needed_pushes(segments: Seq<NarrowedSegmentView>) -> Seq<BookmarkView>
    decreases segments.len(),
{
    if segments.len() == 0 {
        Seq::empty()
    } else {
        let rest = needed_pushes(segments.drop_last());
        if segments.last().bookmark.needs_push() {
            rest.push(segments.last().bookmark)
        } else {
            rest
        }
    }
}

/// The branch that the pull request of segment `i` belongs on: the default
/// branch for the lowest segment, the bookmark of the segment below for
/// any other.
pub open spec fn expected_base(
    segments: Seq<NarrowedSegmentView>,
    i: int,
    default_branch: Seq<char>,
) -> Seq<char> {
    if i == 0 {
        default_branch
    } else {
        segments[i - 1].bookmark.name
    }
}

/// The title for the pull request of a segment: the description of its
/// oldest commit, or the bookmark's name where that is empty or missing.
pub open spec fn title_for(segment: NarrowedSegmentView) -> Seq<char> {
    if segment.changes.len() == 0 || segment.changes.last().description_first_line.len() == 0 {
        segment.bookmark.name
    } else {
        segment.changes.last().description_first_line
    }
}

/// The changes of base among the first `upto` segments: one for each pull
/// request that exists and sits on another base than the stack calls for.
pub open spec fn needed_updates(
    segments: Seq<NarrowedSegmentView>,
    existing: Map<Seq<char>, PullRequestView>,
    default_branch: Seq<char>,
    upto: nat,
) -> Seq<PrBaseUpdateView>
    decreases upto,
{
    if upto == 0 {
        Seq::empty()
    } else {
        let rest = needed_updates(segments, existing, default_branch, (upto - 1) as nat);
        let bookmark = segments[upto - 1].bookmark;
        let expected = expected_base(segments, upto - 1, default_branch);
        if existing.contains_key(bookmark.name) && existing[bookmark.name].base_ref != expected {
            rest.push(
                PrBaseUpdateView {
                    bookmark,
                    current_base: existing[bookmark.name].base_ref,
                    expected_base: expected,
                    pr: existing[bookmark.name],
                },
            )
        } else {
            rest
        }
    }
}

/// The pull requests to create among the first `upto` segments: one for
/// each bookmark that has none.
pub open spec fn needed_creates(
    segments: Seq<NarrowedSegmentView>,
    existing: Map<Seq<char>, PullRequestView>,
    default_branch: Seq<char>,
    upto: nat,
) -> Seq<PrToCreateView>
    decreases upto,
{
    if upto == 0 {
        Seq::empty()
    } else {
        let rest = needed_creates(segments, existing, default_branch, (upto - 1) as nat);
        let bookmark = segments[upto - 1].bookmark;
        if !existing.contains_key(bookmark.name) {
            rest.push(
                PrToCreateView {
                    bookmark,
                    base_branch: expected_base(segments, upto - 1, default_branch),
                    title: title_for(segments[upto - 1]),
                    draft: false,
                },
            )
        } else {
            rest
        }
    }
}

/// The plan for an analysed stack and the pull requests that exist.
pub open spec fn plan_of(
    analysis: SubmissionAnalysisView,
    existing: Map<Seq<char>, PullRequestView>,
    remote: Seq<char>,
    default_branch: Seq<char>,
) -> Result<PlanView, ErrorView> {
    let segments = analysis.segments;
    let pushes = needed_pushes(segments);
    let updates = needed_updates(segments, existing, default_branch, segments.len());
    let creates = needed_creates(segments, existing, default_branch, segments.len());
    match scheduled(segments, pushes, updates, creates, Seq::empty()) {
        Ok(steps) => Ok(
            PlanView {
                segments,
                constraints: constraints_of(segments, updates, creates),
                execution_steps: steps,
                existing_prs: existing,
                remote,
                default_branch,
            },
        ),
        Err(error) => Err(error),
    }
}

/// The changes of base are for bookmarks of the segments looked at, in
/// the order of the stack, so no bookmark has two.
pub proof fn lemma_needed_updates_names(
    segments: Seq<NarrowedSegmentView>,
    existing: Map<Seq<char>, PullRequestView>,
    default_branch: Seq<char>,
    upto: nat,
)
    requires
        narrowed_names(segments).no_duplicates(),
        upto <= segments.len(),
    ensures
        update_names(needed_updates(segments, existing, default_branch, upto)).no_duplicates(),
        forall|j: int|
            0 <= j < needed_updates(segments, existing, default_branch, upto).len()
                ==> narrowed_names(segments).take(upto as int).contains(
                (#[trigger] needed_updates(
                    segments,
                    existing,
                    default_branch,
                    upto,
                )[j]).bookmark.name,
            ),
    decreases upto,
{
    if upto > 0 {
        let names = narrowed_names(segments);
        lemma_needed_updates_names(segments, existing, default_branch, (upto - 1) as nat);
        let rest = needed_updates(segments, existing, default_branch, (upto - 1) as nat);
        let all = needed_updates(segments, existing, default_branch, upto);
        let name = segments[upto - 1].bookmark.name;
        assert(names[upto - 1] == name);
        assert(names.take(upto as int)[upto - 1] == name);
        assert forall|j: int| 0 <= j < rest.len() implies names.take(upto as int).contains(
            (#[trigger] rest[j]).bookmark.name,
        ) && rest[j].bookmark.name != name by {
            let seen = names.take(upto - 1);
            let k = choose|k: int| 0 <= k < seen.len() && seen[k] == rest[j].bookmark.name;
            assert(names.take(upto as int)[k] == names[k]);
            assert(names[k] != names[upto - 1]);
        }
        assert forall|j: int| 0 <= j < all.len() implies names.take(upto as int).contains(
            (#[trigger] all[j]).bookmark.name,
        ) by {
            if j < rest.len() {
                assert(all[j] == rest[j]);
            }
        }
        assert forall|a: int, b: int|
            0 <= a < update_names(all).len() && 0 <= b < update_names(all).len() && a
                != b implies update_names(all)[a] != update_names(all)[b] by {
            if a < rest.len() && b < rest.len() {
                assert(update_names(rest)[a] != update_names(rest)[b]);
                assert(all[a] == rest[a] && all[b] == rest[b]);
            } else if a < rest.len() {
                assert(all[a] == rest[a]);
            } else if b < rest.len() {
                assert(all[b] == rest[b]);
            }
        }
    }
}

/// Works out what has to be done for an analysed stack, given the pull
/// requests that exist already by bookmark name: which bookmarks to push,
/// which pull requests to create and which to move to another base, and in
/// which order. Fails only if the ordering obligations contradict each other.
pub fn create_submission_plan(
    analysis: &SubmissionAnalysis,
    existing_prs: NameMap<PullRequest>,
    remote: &str,
    default_branch: &str,
) -> (r: Result<SubmissionPlan, Error>)
    requires
        narrowed_names(analysis@.segments).no_duplicates(),
    ensures
        match r {
            Ok(plan) => plan_of(analysis@, pr_views(existing_prs@), remote@, default_branch@)
                == Ok::<PlanView, ErrorView>(plan@) && plan.existing_prs == existing_prs,
            Err(error) => plan_of(analysis@, pr_views(existing_prs@), remote@, default_branch@)
                == Err::<PlanView, ErrorView>(error@),
        },
        !narrowed_names(analysis@.segments).contains(default_branch@) ==> r is Ok,
{
    let segments = &analysis.segments;
    let ghost views = analysis@.segments;
    let ghost names = narrowed_names(views);
    let ghost existing = pr_views(existing_prs@);
    let ghost default = default_branch@;
    let mut pushes: Vec<Bookmark> = Vec::new();
    let mut creates: Vec<PrToCreate> = Vec::new();
    let mut updates: Vec<PrBaseUpdate> = Vec::new();
    let mut i: usize = 0;
    assert(views.take(0) =~= Seq::empty());
    assert(pushes.deep_view() =~= Seq::empty());
    assert(creates.deep_view() =~= Seq::empty());
    assert(updates.deep_view() =~= Seq::empty());
    while i < segments.len()
        invariant
            views == analysis@.segments,
            views == segments.deep_view(),
            names == narrowed_names(views),
            names.no_duplicates(),
            existing == pr_views(existing_prs@),
            default == default_branch@,
            i <= segments.len(),
            pushes.deep_view() == needed_pushes(views.take(i as int)),
            updates.deep_view() == needed_updates(views, existing, default, i as nat),
            creates.deep_view() == needed_creates(views, existing, default, i as nat),
        decreases segments.len() - i,
    {
        let segment = &segments[i];
        let bookmark = &segment.bookmark;
        proof {
            assert(views.take(i + 1).drop_last() =~= views.take(i as int));
            assert(views.take(i + 1).last() == segment@);
            assert(views[i as int] == segment@);
            assert(names[i as int] == bookmark@.name);
            assert(crate::text::is_first_position(names, bookmark@.name, i as int));
            assert(names.contains(bookmark@.name));
        }
        if bookmark.needs_push() {
            let ghost before = pushes.deep_view();
            pushes.push(bookmark.clone());
            assert(pushes.deep_view() =~= before.push(bookmark@));
        }
        let expected = match get_base_branch(
            bookmark.name.as_str(),
            segments.as_slice(),
            default_branch,
        ) {
            Ok(base) => base,
            Err(error) => {
                return Err(error);
            },
        };
        assert(expected@ == expected_base(views, i as int, default));
        match existing_prs.get(bookmark.name.as_str()) {
            Some(pr) => {
                assert(existing.contains_key(bookmark@.name));
                assert(existing[bookmark@.name] == pr@);
                if !(pr.base_ref == expected) {
                    let ghost before = updates.deep_view();
                    let update = PrBaseUpdate {
                        bookmark: bookmark.clone(),
                        current_base: pr.base_ref.clone(),
                        expected_base: expected,
                        pr: pr.clone(),
                    };
                    updates.push(update);
                    assert(updates.deep_view() =~= before.push(update@));
                }
            },
            None => {
                assert(!existing.contains_key(bookmark@.name));
                let title = match generate_pr_title(bookmark.name.as_str(), segments.as_slice()) {
                    Ok(title) => title,
                    Err(error) => {
                        return Err(error);
                    },
                };
                assert(title@ == title_for(views[i as int]));
                let ghost before = creates.deep_view();
                let create = PrToCreate {
                    bookmark: bookmark.clone(),
                    base_branch: expected,
                    title,
                    draft: false,
                };
                creates.push(create);
                assert(creates.deep_view() =~= before.push(create@));
            },
        }
        i += 1;
    }
    assert(views.take(i as int) =~= views);
    let publishes: Vec<PullRequest> = Vec::new();
    proof {
        lemma_needed_updates_names(views, existing, default, views.len());
        assert(publishes.deep_view() =~= Seq::empty());
        assert(publish_names(publishes.deep_view()) =~= Seq::empty());
    }
    let ordered = build_execution_steps(
        segments.as_slice(),
        pushes.as_slice(),
        updates.as_slice(),
        creates.as_slice(),
        publishes.as_slice(),
    );
    proof {
        if !names.contains(default) {
            crate::submit::laws::lemma_plan_exists(analysis@, existing, remote@, default);
        }
    }
    match ordered {
        Ok((constraints, execution_steps)) => Ok(
            SubmissionPlan {
                segments: clone_narrowed(segments),
                constraints,
                execution_steps,
                existing_prs,
                remote: String::from_str(remote),
                default_branch: String::from_str(default_branch),
            },
        ),
        Err(error) => Err(error),
    }
}

} // verus!
