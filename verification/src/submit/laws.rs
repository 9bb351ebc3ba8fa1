//! What holds of every plan: the order of its steps honours every
//! obligation whose two operations are part of it.

use crate::error::ErrorView;
use crate::submit::analysis::{narrowed_names, SubmissionAnalysisView};
use crate::submit::constraints::{
    constraints_of, create_after_push, create_orders, is_swap, push_after_retarget, push_orders,
    resolved_edges, retarget_after_push, with_edge,
};
use crate::submit::nodes::{
    base_updates, bookmark_names, create_names, extra_pushes, nodes_of, planned_steps,
    publications, registry_of, stack_creates, stack_pushes,
};
use crate::submit::plan::{
    ConstraintView, PlanView, PrBaseUpdateView, PrToCreateView, StepKind, StepView,
};
use crate::submit::planner::{
    inputs_distinct, lemma_extra_pushes, lemma_needed_updates_names, lemma_planned_steps_distinct,
    lemma_registry_entries, lemma_registry_exact, lemma_stack_creates, lemma_stack_pushes,
    needed_creates, needed_pushes, needed_updates, plan_of, planned_edges, publish_names,
    scheduled, step_key,
};
use crate::submit::registry::RegistryView;
use crate::submit::schedule::{
    cycle_error, has_edge, is_cycle, key_before, lemma_blocked_by_later_node,
    lemma_cycle_nodes_never_run, lemma_incomplete_order_has_cycle,
    lemma_levelled_graph_completes, lemma_room_left,
    lemma_schedule_respects_edges, ranks, respects_edges, schedule_order, sorted_steps,
    steps_in_order, stuck_texts, NodeView,
};
use crate::text::{first_position, is_first_position, is_last_position, last_position};
use crate::types::{BookmarkView, NarrowedSegmentView, PullRequestView};
use vstd::prelude::*;

verus! {

/// There is one row of edges for each registered operation.
pub proof fn lemma_resolved_edges_len(constraints: Seq<ConstraintView>, registry: RegistryView)
    ensures
        resolved_edges(constraints, registry).len() == registry.count,
    decreases constraints.len(),
{
    if constraints.len() > 0 {
        lemma_resolved_edges_len(constraints.drop_last(), registry);
    }
}

/// An obligation whose two operations are registered gives an edge.
pub proof fn lemma_resolved_has_edge(
    constraints: Seq<ConstraintView>,
    registry: RegistryView,
    k: int,
    from: usize,
    to: usize,
)
    requires
        0 <= k < constraints.len(),
        registry.resolve(constraints[k]) == Some((from, to)),
        from < registry.count,
    ensures
        has_edge(resolved_edges(constraints, registry), from, to),
    decreases constraints.len(),
{
    let before = constraints.drop_last();
    let rows = resolved_edges(before, registry);
    lemma_resolved_edges_len(before, registry);
    if k == constraints.len() - 1 {
        if rows[from as int].contains(to) {
        } else {
            let added = rows.update(from as int, rows[from as int].push(to));
            assert(added[from as int][rows[from as int].len() as int] == to);
        }
    } else {
        assert(before[k] == constraints[k]);
        lemma_resolved_has_edge(before, registry, k, from, to);
        match registry.resolve(constraints.last()) {
            Some((f, t)) => {
                if f < rows.len() && !rows[f as int].contains(t) {
                    let i = choose|i: int|
                        0 <= i < rows[from as int].len() && rows[from as int][i] == to;
                    let added = with_edge(rows, f, t);
                    if f == from {
                        assert(added[from as int][i] == to);
                    } else {
                        assert(added[from as int] == rows[from as int]);
                    }
                }
            },
            None => {},
        }
    }
}

/// In the order of a plan, every obligation that was collected holds
/// between any two steps that are its two operations.
pub proof fn lemma_collected_constraints_hold(
    segments: Seq<NarrowedSegmentView>,
    pushes: Seq<BookmarkView>,
    updates: Seq<PrBaseUpdateView>,
    creates: Seq<PrToCreateView>,
    publishes: Seq<PullRequestView>,
    constraint: ConstraintView,
    p: int,
    q: int,
)
    requires
        inputs_distinct(segments, updates, publishes),
        planned_steps(segments, pushes, updates, creates, publishes).len() <= usize::MAX,
        scheduled(segments, pushes, updates, creates, publishes) is Ok,
        constraints_of(segments, updates, creates).contains(constraint),
        0 <= p < scheduled(segments, pushes, updates, creates, publishes)->Ok_0.len(),
        0 <= q < scheduled(segments, pushes, updates, creates, publishes)->Ok_0.len(),
        step_key(scheduled(segments, pushes, updates, creates, publishes)->Ok_0[p])
            == constraint.first(),
        step_key(scheduled(segments, pushes, updates, creates, publishes)->Ok_0[q])
            == constraint.second(),
    ensures
        p < q,
{
    let planned = planned_steps(segments, pushes, updates, creates, publishes);
    let nodes = nodes_of(planned);
    let registry = registry_of(planned);
    let constraints = constraints_of(segments, updates, creates);
    let edges = resolved_edges(constraints, registry);
    let order = schedule_order(ranks(nodes), edges);
    let steps = steps_in_order(nodes, order);
    lemma_planned_steps_distinct(segments, pushes, updates, creates, publishes);
    lemma_registry_exact(planned);
    lemma_resolved_edges_len(constraints, registry);
    lemma_schedule_respects_edges(ranks(nodes), edges);
    let a = order[p];
    let c = order[q];
    assert(steps[p] == planned[a as int]);
    assert(steps[q] == planned[c as int]);
    assert(registry.lookup(planned[a as int].kind(), planned[a as int].bookmark_name()) == Some(a));
    assert(registry.lookup(planned[c as int].kind(), planned[c as int].bookmark_name()) == Some(c));
    let k = choose|k: int| 0 <= k < constraints.len() && constraints[k] == constraint;
    assert(registry.resolve(constraints[k]) == Some((a, c)));
    lemma_resolved_has_edge(constraints, registry, k, a, c);
    assert(has_edge(edges, a, order[q]));
    let earlier = choose|e: int| 0 <= e < q && order[e] == a;
    assert(earlier == p);
}

/// Every planned step comes from what was asked for: a push is the push of
/// a bookmark to push, a change of base is one of the changes given, a
/// creation creates a pull request that was to be created, a publication
/// is one of those given.
pub proof fn lemma_planned_step_origin(
    segments: Seq<NarrowedSegmentView>,
    pushes: Seq<BookmarkView>,
    updates: Seq<PrBaseUpdateView>,
    creates: Seq<PrToCreateView>,
    publishes: Seq<PullRequestView>,
    i: int,
)
    requires
        narrowed_names(segments).no_duplicates(),
        0 <= i < planned_steps(segments, pushes, updates, creates, publishes).len(),
    ensures
        match planned_steps(segments, pushes, updates, creates, publishes)[i] {
            StepView::Push(bookmark) => bookmark_names(pushes).contains(bookmark.name),
            StepView::UpdateBase(update) => updates.contains(update),
            StepView::CreatePr(create) => create_names(creates).contains(create.bookmark.name),
            StepView::PublishPr(pr) => publishes.contains(pr),
        },
{
    let names = narrowed_names(segments);
    let a = stack_pushes(names, pushes);
    let b = extra_pushes(names, pushes);
    let c = base_updates(updates);
    let d = stack_creates(names, creates);
    let e = publications(publishes);
    lemma_stack_pushes(names, pushes);
    lemma_extra_pushes(names, pushes);
    lemma_stack_creates(names, creates);
    let all = a + b + c + d + e;
    if i < a.len() {
        assert(all[i] == a[i]);
        assert(a[i].kind() == StepKind::Push);
    } else if i < (a + b).len() {
        assert(all[i] == b[i - a.len()]);
        assert(b[i - a.len()].kind() == StepKind::Push);
    } else if i < (a + b + c).len() {
        let j = i - (a + b).len();
        assert(all[i] == c[j]);
        assert(updates[j] == all[i]->UpdateBase_0);
    } else if i < (a + b + c + d).len() {
        assert(all[i] == d[i - (a + b + c).len()]);
        assert(d[i - (a + b + c).len()].kind() == StepKind::CreatePr);
    } else {
        let j = i - (a + b + c + d).len();
        assert(all[i] == e[j]);
        assert(publishes[j] == all[i]->PublishPr_0);
    }
}

/// Every step of the order is a planned step.
pub proof fn lemma_scheduled_steps_planned(
    segments: Seq<NarrowedSegmentView>,
    pushes: Seq<BookmarkView>,
    updates: Seq<PrBaseUpdateView>,
    creates: Seq<PrToCreateView>,
    publishes: Seq<PullRequestView>,
    q: int,
) -> (i: int)
    requires
        scheduled(segments, pushes, updates, creates, publishes) is Ok,
        0 <= q < scheduled(segments, pushes, updates, creates, publishes)->Ok_0.len(),
    ensures
        0 <= i < planned_steps(segments, pushes, updates, creates, publishes).len(),
        planned_steps(segments, pushes, updates, creates, publishes)[i] == scheduled(
            segments,
            pushes,
            updates,
            creates,
            publishes,
        )->Ok_0[q],
{
    let planned = planned_steps(segments, pushes, updates, creates, publishes);
    let nodes = nodes_of(planned);
    let edges = planned_edges(segments, pushes, updates, creates, publishes);
    let order = schedule_order(ranks(nodes), edges);
    lemma_schedule_respects_edges(ranks(nodes), edges);
    lemma_resolved_edges_len(constraints_of(segments, updates, creates), registry_of(planned));
    lemma_registry_entries_bound(planned);
    order[q] as int
}

/// The registry holds no more entries than steps.
proof fn lemma_registry_entries_bound(steps: Seq<StepView>)
    ensures
        registry_of(steps).count <= steps.len(),
    decreases steps.len(),
{
    if steps.len() > 0 {
        lemma_registry_entries_bound(steps.drop_last());
    }
}

/// A bookmark is pushed before its pull request is created.
pub proof fn lemma_push_before_create(
    segments: Seq<NarrowedSegmentView>,
    pushes: Seq<BookmarkView>,
    updates: Seq<PrBaseUpdateView>,
    creates: Seq<PrToCreateView>,
    publishes: Seq<PullRequestView>,
    p: int,
    q: int,
)
    requires
        inputs_distinct(segments, updates, publishes),
        planned_steps(segments, pushes, updates, creates, publishes).len() <= usize::MAX,
        scheduled(segments, pushes, updates, creates, publishes) is Ok,
        0 <= p < scheduled(segments, pushes, updates, creates, publishes)->Ok_0.len(),
        0 <= q < scheduled(segments, pushes, updates, creates, publishes)->Ok_0.len(),
        scheduled(segments, pushes, updates, creates, publishes)->Ok_0[p] is Push,
        scheduled(segments, pushes, updates, creates, publishes)->Ok_0[q] is CreatePr,
        scheduled(segments, pushes, updates, creates, publishes)->Ok_0[p].bookmark_name()
            == scheduled(segments, pushes, updates, creates, publishes)->Ok_0[q].bookmark_name(),
    ensures
        p < q,
{
    let steps = scheduled(segments, pushes, updates, creates, publishes)->Ok_0;
    let name = steps[q].bookmark_name();
    let i = lemma_scheduled_steps_planned(segments, pushes, updates, creates, publishes, q);
    lemma_planned_step_origin(segments, pushes, updates, creates, publishes, i);
    let j = choose|j: int| 0 <= j < create_names(creates).len() && create_names(creates)[j] == name;
    let constraint = ConstraintView::PushBeforeCreate { push: name, create: name };
    let names = narrowed_names(segments);
    let all = constraints_of(segments, updates, creates);
    let before = push_orders(names) + retarget_after_push(updates) + push_after_retarget(
        updates,
        names,
    );
    assert(create_after_push(creates)[j] == constraint);
    assert(all[before.len() + j] == constraint);
    lemma_collected_constraints_hold(
        segments,
        pushes,
        updates,
        creates,
        publishes,
        constraint,
        p,
        q,
    );
}

/// The new base of a pull request is pushed before the request is moved
/// onto it.
pub proof fn lemma_push_before_retarget(
    segments: Seq<NarrowedSegmentView>,
    pushes: Seq<BookmarkView>,
    updates: Seq<PrBaseUpdateView>,
    creates: Seq<PrToCreateView>,
    publishes: Seq<PullRequestView>,
    p: int,
    q: int,
)
    requires
        inputs_distinct(segments, updates, publishes),
        planned_steps(segments, pushes, updates, creates, publishes).len() <= usize::MAX,
        scheduled(segments, pushes, updates, creates, publishes) is Ok,
        0 <= p < scheduled(segments, pushes, updates, creates, publishes)->Ok_0.len(),
        0 <= q < scheduled(segments, pushes, updates, creates, publishes)->Ok_0.len(),
        scheduled(segments, pushes, updates, creates, publishes)->Ok_0[p] is Push,
        scheduled(segments, pushes, updates, creates, publishes)->Ok_0[q] matches StepView::UpdateBase(
            update,
        ) && update.expected_base == scheduled(
            segments,
            pushes,
            updates,
            creates,
            publishes,
        )->Ok_0[p].bookmark_name(),
    ensures
        p < q,
{
    let steps = scheduled(segments, pushes, updates, creates, publishes)->Ok_0;
    let update = steps[q]->UpdateBase_0;
    let i = lemma_scheduled_steps_planned(segments, pushes, updates, creates, publishes, q);
    lemma_planned_step_origin(segments, pushes, updates, creates, publishes, i);
    let j = choose|j: int| 0 <= j < updates.len() && updates[j] == update;
    let constraint = ConstraintView::PushBeforeRetarget {
        base: update.expected_base,
        pr: update.bookmark.name,
    };
    let names = narrowed_names(segments);
    let all = constraints_of(segments, updates, creates);
    assert(retarget_after_push(updates)[j] == constraint);
    assert(all[push_orders(names).len() + j] == constraint);
    lemma_collected_constraints_hold(
        segments,
        pushes,
        updates,
        creates,
        publishes,
        constraint,
        p,
        q,
    );
}

/// Every swap among the changes of base has its obligation.
proof fn lemma_swap_collected(updates: Seq<PrBaseUpdateView>, names: Seq<Seq<char>>, j: int)
    requires
        0 <= j < updates.len(),
        is_swap(updates[j], names),
    ensures
        push_after_retarget(updates, names).contains(
            ConstraintView::RetargetBeforePush {
                pr: updates[j].bookmark.name,
                old_base: updates[j].current_base,
            },
        ),
    decreases updates.len(),
{
    let all = push_after_retarget(updates, names);
    let rest = push_after_retarget(updates.drop_last(), names);
    if j == updates.len() - 1 {
        assert(all[rest.len() as int] == ConstraintView::RetargetBeforePush {
            pr: updates[j].bookmark.name,
            old_base: updates[j].current_base,
        });
    } else {
        assert(updates.drop_last()[j] == updates[j]);
        lemma_swap_collected(updates.drop_last(), names, j);
        let k = choose|k: int|
            0 <= k < rest.len() && rest[k] == ConstraintView::RetargetBeforePush {
                pr: updates[j].bookmark.name,
                old_base: updates[j].current_base,
            };
        assert(all[k] == rest[k]);
    }
}

/// Where the base that a pull request leaves is a bookmark that now sits
/// above the request's own bookmark, the request is retargeted before that
/// bookmark is pushed.
pub proof fn lemma_retarget_before_push_of_swapped_base(
    segments: Seq<NarrowedSegmentView>,
    pushes: Seq<BookmarkView>,
    updates: Seq<PrBaseUpdateView>,
    creates: Seq<PrToCreateView>,
    publishes: Seq<PullRequestView>,
    p: int,
    q: int,
)
    requires
        inputs_distinct(segments, updates, publishes),
        planned_steps(segments, pushes, updates, creates, publishes).len() <= usize::MAX,
        scheduled(segments, pushes, updates, creates, publishes) is Ok,
        0 <= p < scheduled(segments, pushes, updates, creates, publishes)->Ok_0.len(),
        0 <= q < scheduled(segments, pushes, updates, creates, publishes)->Ok_0.len(),
        scheduled(segments, pushes, updates, creates, publishes)->Ok_0[q] is Push,
        scheduled(segments, pushes, updates, creates, publishes)->Ok_0[p] matches StepView::UpdateBase(
            update,
        ) && update.current_base == scheduled(
            segments,
            pushes,
            updates,
            creates,
            publishes,
        )->Ok_0[q].bookmark_name() && is_swap(update, narrowed_names(segments)),
    ensures
        p < q,
{
    let steps = scheduled(segments, pushes, updates, creates, publishes)->Ok_0;
    let update = steps[p]->UpdateBase_0;
    let i = lemma_scheduled_steps_planned(segments, pushes, updates, creates, publishes, p);
    lemma_planned_step_origin(segments, pushes, updates, creates, publishes, i);
    let j = choose|j: int| 0 <= j < updates.len() && updates[j] == update;
    let constraint = ConstraintView::RetargetBeforePush {
        pr: update.bookmark.name,
        old_base: update.current_base,
    };
    let names = narrowed_names(segments);
    let all = constraints_of(segments, updates, creates);
    lemma_swap_collected(updates, names, j);
    let k = choose|k: int|
        0 <= k < push_after_retarget(updates, names).len() && push_after_retarget(
            updates,
            names,
        )[k] == constraint;
    assert(all[push_orders(names).len() + retarget_after_push(updates).len() + k] == constraint);
    lemma_collected_constraints_hold(
        segments,
        pushes,
        updates,
        creates,
        publishes,
        constraint,
        p,
        q,
    );
}

/// Every bookmark of the stack that is to be pushed has its push among
/// the pushes of the stack.
proof fn lemma_stack_push_present(names: Seq<Seq<char>>, pushes: Seq<BookmarkView>, k: int) -> (t:
    int)
    requires
        0 <= k < names.len(),
        bookmark_names(pushes).contains(names[k]),
    ensures
        0 <= t < stack_pushes(names, pushes).len(),
        stack_pushes(names, pushes)[t] is Push,
        stack_pushes(names, pushes)[t].bookmark_name() == names[k],
    decreases names.len(),
{
    let rest = stack_pushes(names.drop_last(), pushes);
    if k == names.len() - 1 {
        crate::text::lemma_first_position(bookmark_names(pushes), names[k]);
        rest.len() as int
    } else {
        assert(names.drop_last()[k] == names[k]);
        let t = lemma_stack_push_present(names.drop_last(), pushes, k);
        if bookmark_names(pushes).contains(names.last()) {
            assert(stack_pushes(names, pushes)[t] == rest[t]);
        }
        t
    }
}

/// Every planned step has its place in the order of a plan that has one.
pub proof fn lemma_planned_steps_scheduled(
    segments: Seq<NarrowedSegmentView>,
    pushes: Seq<BookmarkView>,
    updates: Seq<PrBaseUpdateView>,
    creates: Seq<PrToCreateView>,
    publishes: Seq<PullRequestView>,
    i: int,
) -> (q: int)
    requires
        planned_steps(segments, pushes, updates, creates, publishes).len() <= usize::MAX,
        scheduled(segments, pushes, updates, creates, publishes) is Ok,
        0 <= i < planned_steps(segments, pushes, updates, creates, publishes).len(),
    ensures
        0 <= q < scheduled(segments, pushes, updates, creates, publishes)->Ok_0.len(),
        scheduled(segments, pushes, updates, creates, publishes)->Ok_0[q] == planned_steps(
            segments,
            pushes,
            updates,
            creates,
            publishes,
        )[i],
{
    let planned = planned_steps(segments, pushes, updates, creates, publishes);
    let nodes = nodes_of(planned);
    let edges = planned_edges(segments, pushes, updates, creates, publishes);
    let order = schedule_order(ranks(nodes), edges);
    lemma_schedule_respects_edges(ranks(nodes), edges);
    lemma_resolved_edges_len(constraints_of(segments, updates, creates), registry_of(planned));
    lemma_registry_entries_bound(planned);
    if !order.contains(i as usize) {
        lemma_room_left(order, planned.len(), i as usize);
    }
    choose|q: int| 0 <= q < order.len() && order[q] == i as usize
}

/// Bookmarks that follow each other in the stack without a gap, all of
/// them to be pushed, are pushed from the bottom up.
pub proof fn lemma_push_order_follows_stack(
    segments: Seq<NarrowedSegmentView>,
    pushes: Seq<BookmarkView>,
    updates: Seq<PrBaseUpdateView>,
    creates: Seq<PrToCreateView>,
    publishes: Seq<PullRequestView>,
    i: int,
    j: int,
    p: int,
    q: int,
)
    requires
        inputs_distinct(segments, updates, publishes),
        planned_steps(segments, pushes, updates, creates, publishes).len() <= usize::MAX,
        scheduled(segments, pushes, updates, creates, publishes) is Ok,
        0 <= i < j < segments.len(),
        forall|k: int|
            i <= k <= j ==> bookmark_names(pushes).contains(
                #[trigger] narrowed_names(segments)[k],
            ),
        0 <= p < scheduled(segments, pushes, updates, creates, publishes)->Ok_0.len(),
        0 <= q < scheduled(segments, pushes, updates, creates, publishes)->Ok_0.len(),
        scheduled(segments, pushes, updates, creates, publishes)->Ok_0[p] is Push,
        scheduled(segments, pushes, updates, creates, publishes)->Ok_0[q] is Push,
        scheduled(segments, pushes, updates, creates, publishes)->Ok_0[p].bookmark_name()
            == segments[i].bookmark.name,
        scheduled(segments, pushes, updates, creates, publishes)->Ok_0[q].bookmark_name()
            == segments[j].bookmark.name,
    ensures
        p < q,
    decreases j - i,
{
    let names = narrowed_names(segments);
    let steps = scheduled(segments, pushes, updates, creates, publishes)->Ok_0;
    let all = constraints_of(segments, updates, creates);
    let below = ConstraintView::PushOrder { parent: names[j - 1], child: names[j] };
    assert(push_orders(names)[j - 1] == below);
    assert(all[j - 1] == below);
    if j == i + 1 {
        lemma_collected_constraints_hold(
            segments,
            pushes,
            updates,
            creates,
            publishes,
            below,
            p,
            q,
        );
    } else {
        assert(bookmark_names(pushes).contains(names[j - 1]));
        let t = lemma_stack_push_present(names, pushes, j - 1);
        let planned = planned_steps(segments, pushes, updates, creates, publishes);
        assert(planned[t] == stack_pushes(names, pushes)[t]);
        let m = lemma_planned_steps_scheduled(segments, pushes, updates, creates, publishes, t);
        lemma_push_order_follows_stack(
            segments,
            pushes,
            updates,
            creates,
            publishes,
            i,
            j - 1,
            p,
            m,
        );
        lemma_collected_constraints_hold(
            segments,
            pushes,
            updates,
            creates,
            publishes,
            below,
            m,
            q,
        );
    }
}

/// The description of every node below `m` that is missing from the order
/// is among the stuck descriptions.
proof fn lemma_stuck_texts_complete(nodes: Seq<NodeView>, order: Seq<usize>, m: nat, v: usize)
    requires
        v < m,
        m <= usize::MAX + 1,
        !order.contains(v),
    ensures
        stuck_texts(nodes, order, m).contains(nodes[v as int].step.text()),
    decreases m,
{
    let all = stuck_texts(nodes, order, m);
    let rest = stuck_texts(nodes, order, (m - 1) as nat);
    if v == m - 1 {
        assert(all[rest.len() as int] == nodes[v as int].step.text());
    } else {
        lemma_stuck_texts_complete(nodes, order, (m - 1) as nat, v);
        let k = choose|k: int| 0 <= k < rest.len() && rest[k] == nodes[v as int].step.text();
        assert(all[k] == rest[k]);
    }
}

/// A graph with a cycle has no order: sorting gives the cycle error, and
/// the error names every node of the cycle.
pub proof fn lemma_cycle_gives_error(
    nodes: Seq<NodeView>,
    edges: Seq<Seq<usize>>,
    cycle: Seq<usize>,
)
    requires
        edges.len() == nodes.len(),
        nodes.len() <= usize::MAX,
        is_cycle(edges, cycle),
    ensures
        sorted_steps(nodes, edges) == Err::<Seq<StepView>, ErrorView>(
            cycle_error(nodes, schedule_order(ranks(nodes), edges)),
        ),
        stuck_texts(nodes, schedule_order(ranks(nodes), edges), nodes.len()).len() > 0,
        forall|i: int|
            0 <= i < cycle.len() ==> stuck_texts(
                nodes,
                schedule_order(ranks(nodes), edges),
                nodes.len(),
            ).contains(nodes[(#[trigger] cycle[i]) as int].step.text()),
{
    let order = schedule_order(ranks(nodes), edges);
    lemma_cycle_nodes_never_run(ranks(nodes), edges, cycle);
    lemma_schedule_respects_edges(ranks(nodes), edges);
    assert forall|i: int| 0 <= i < cycle.len() implies stuck_texts(
        nodes,
        order,
        nodes.len(),
    ).contains(nodes[(#[trigger] cycle[i]) as int].step.text()) by {
        assert(has_edge(
            edges,
            cycle[i],
            cycle[if i + 1 < cycle.len() {
                i + 1
            } else {
                0
            }],
        ));
        lemma_stuck_texts_complete(nodes, order, nodes.len(), cycle[i]);
    }
    assert(has_edge(
        edges,
        cycle[0],
        cycle[if 1 < cycle.len() {
            1
        } else {
            0
        }],
    ));
    lemma_room_left(order, nodes.len(), cycle[0]);
    lemma_stuck_texts_complete(nodes, order, nodes.len(), cycle[0]);
}

/// Sorting fails on the graphs that have a cycle, and on no others.
pub proof fn lemma_error_exactly_on_cycles(nodes: Seq<NodeView>, edges: Seq<Seq<usize>>)
    requires
        edges.len() == nodes.len(),
        nodes.len() <= usize::MAX,
    ensures
        sorted_steps(nodes, edges) is Err <==> exists|cycle: Seq<usize>| is_cycle(edges, cycle),
{
    if sorted_steps(nodes, edges) is Err {
        let cycle = lemma_incomplete_order_has_cycle(ranks(nodes), edges);
        assert(is_cycle(edges, cycle));
    }
    if exists|cycle: Seq<usize>| is_cycle(edges, cycle) {
        let cycle = choose|cycle: Seq<usize>| is_cycle(edges, cycle);
        lemma_cycle_gives_error(nodes, edges, cycle);
    }
}

/// Nothing needs a push where every bookmark is in step with its remote.
proof fn lemma_no_pushes_needed(segments: Seq<NarrowedSegmentView>)
    requires
        forall|i: int| 0 <= i < segments.len() ==> !(#[trigger] segments[i]).bookmark.needs_push(),
    ensures
        needed_pushes(segments).len() == 0,
    decreases segments.len(),
{
    if segments.len() > 0 {
        assert forall|i: int| 0 <= i < segments.drop_last().len() implies !(
        #[trigger] segments.drop_last()[i]).bookmark.needs_push() by {
            assert(segments.drop_last()[i] == segments[i]);
        }
        lemma_no_pushes_needed(segments.drop_last());
    }
}

proof fn lemma_no_changes_needed(
    segments: Seq<NarrowedSegmentView>,
    existing: Map<Seq<char>, PullRequestView>,
    default_branch: Seq<char>,
    upto: nat,
)
    requires
        upto <= segments.len(),
        forall|i: int|
            0 <= i < segments.len() ==> existing.contains_key(
                (#[trigger] segments[i]).bookmark.name,
            ) && existing[segments[i].bookmark.name].base_ref == crate::submit::planner::expected_base(
                segments,
                i,
                default_branch,
            ),
    ensures
        needed_updates(segments, existing, default_branch, upto).len() == 0,
        needed_creates(segments, existing, default_branch, upto).len() == 0,
    decreases upto,
{
    if upto > 0 {
        lemma_no_changes_needed(segments, existing, default_branch, (upto - 1) as nat);
        assert(existing.contains_key(segments[upto - 1].bookmark.name));
    }
}

proof fn lemma_nothing_planned(names: Seq<Seq<char>>)
    ensures
        stack_pushes(names, Seq::empty()).len() == 0,
        stack_creates(names, Seq::empty()).len() == 0,
    decreases names.len(),
{
    if names.len() > 0 {
        lemma_nothing_planned(names.drop_last());
    }
}

/// A stack that is in step with the remote needs nothing: where no bookmark
/// has to be pushed and every bookmark has a pull request on the base that
/// the stack calls for, the plan has no steps.
pub proof fn lemma_synced_stack_gives_empty_plan(
    analysis: SubmissionAnalysisView,
    existing: Map<Seq<char>, PullRequestView>,
    remote: Seq<char>,
    default_branch: Seq<char>,
)
    requires
        forall|i: int|
            0 <= i < analysis.segments.len() ==> !(
            #[trigger] analysis.segments[i]).bookmark.needs_push(),
        forall|i: int|
            0 <= i < analysis.segments.len() ==> existing.contains_key(
                (#[trigger] analysis.segments[i]).bookmark.name,
            ) && existing[analysis.segments[i].bookmark.name].base_ref
                == crate::submit::planner::expected_base(analysis.segments, i, default_branch),
    ensures
        plan_of(analysis, existing, remote, default_branch) is Ok,
        plan_of(analysis, existing, remote, default_branch)->Ok_0.execution_steps.len() == 0,
{
    let segments = analysis.segments;
    let names = narrowed_names(segments);
    lemma_no_pushes_needed(segments);
    lemma_no_changes_needed(segments, existing, default_branch, segments.len());
    let pushes = needed_pushes(segments);
    let updates = needed_updates(segments, existing, default_branch, segments.len());
    let creates = needed_creates(segments, existing, default_branch, segments.len());
    assert(pushes =~= Seq::empty());
    assert(updates =~= Seq::empty());
    assert(creates =~= Seq::empty());
    lemma_nothing_planned(names);
    let planned = planned_steps(segments, pushes, updates, creates, Seq::empty());
    assert(planned =~= Seq::empty());
    assert(nodes_of(planned) =~= Seq::empty());
    lemma_resolved_edges_len(constraints_of(segments, updates, creates), registry_of(planned));
    let edges = planned_edges(segments, pushes, updates, creates, Seq::empty());
    assert(edges.len() == 0);
    assert(schedule_order(ranks(nodes_of(planned)), edges) =~= Seq::empty());
}

/// Planning is a function of what it is given: equal inputs give equal plans.
pub proof fn lemma_planning_is_deterministic(
    first: SubmissionAnalysisView,
    second: SubmissionAnalysisView,
    first_existing: Map<Seq<char>, PullRequestView>,
    second_existing: Map<Seq<char>, PullRequestView>,
    remote: Seq<char>,
    default_branch: Seq<char>,
)
    requires
        first.segments == second.segments,
        first_existing == second_existing,
    ensures
        plan_of(first, first_existing, remote, default_branch) == plan_of(
            second,
            second_existing,
            remote,
            default_branch,
        ),
{
}

/// The pushes that a stack needs are pushes of its own bookmarks, from
/// the bottom up.
pub proof fn lemma_needed_pushes_names(segments: Seq<NarrowedSegmentView>)
    ensures
        forall|j: int|
            0 <= j < needed_pushes(segments).len() ==> narrowed_names(segments).contains(
                (#[trigger] needed_pushes(segments)[j]).name,
            ),
    decreases segments.len(),
{
    if segments.len() > 0 {
        let names = narrowed_names(segments);
        let shorter = segments.drop_last();
        lemma_needed_pushes_names(shorter);
        let rest = needed_pushes(shorter);
        let all = needed_pushes(segments);
        assert(names[segments.len() - 1] == segments.last().bookmark.name);
        assert forall|j: int| 0 <= j < all.len() implies names.contains((#[trigger] all[j]).name) by {
            if j < rest.len() {
                assert(all[j] == rest[j]);
                let k = choose|k: int|
                    0 <= k < narrowed_names(shorter).len() && narrowed_names(shorter)[k]
                        == rest[j].name;
                assert(names[k] == narrowed_names(shorter)[k]);
            }
        }
    }
}

/// The pull requests to create for a stack are for its own bookmarks.
pub proof fn lemma_needed_creates_names(
    segments: Seq<NarrowedSegmentView>,
    existing: Map<Seq<char>, PullRequestView>,
    default_branch: Seq<char>,
    upto: nat,
)
    requires
        upto <= segments.len(),
    ensures
        forall|j: int|
            0 <= j < needed_creates(segments, existing, default_branch, upto).len()
                ==> narrowed_names(segments).contains(
                (#[trigger] needed_creates(segments, existing, default_branch, upto)[j]).bookmark.name,
            ),
    decreases upto,
{
    if upto > 0 {
        let names = narrowed_names(segments);
        lemma_needed_creates_names(segments, existing, default_branch, (upto - 1) as nat);
        let rest = needed_creates(segments, existing, default_branch, (upto - 1) as nat);
        let all = needed_creates(segments, existing, default_branch, upto);
        assert(names[upto - 1] == segments[upto - 1].bookmark.name);
        assert forall|j: int| 0 <= j < all.len() implies names.contains(
            (#[trigger] all[j]).bookmark.name,
        ) by {
            if j < rest.len() {
                assert(all[j] == rest[j]);
            }
        }
    }
}

/// Every step of a plan is about a bookmark of the plan's segments.
pub proof fn lemma_plan_steps_are_for_segments(
    analysis: SubmissionAnalysisView,
    existing: Map<Seq<char>, PullRequestView>,
    remote: Seq<char>,
    default_branch: Seq<char>,
    q: int,
)
    requires
        narrowed_names(analysis.segments).no_duplicates(),
        plan_of(analysis, existing, remote, default_branch) is Ok,
        0 <= q < plan_of(analysis, existing, remote, default_branch)->Ok_0.execution_steps.len(),
    ensures
        narrowed_names(plan_of(analysis, existing, remote, default_branch)->Ok_0.segments).contains(
            plan_of(
                analysis,
                existing,
                remote,
                default_branch,
            )->Ok_0.execution_steps[q].bookmark_name(),
        ),
{
    let segments = analysis.segments;
    let names = narrowed_names(segments);
    let pushes = needed_pushes(segments);
    let updates = needed_updates(segments, existing, default_branch, segments.len());
    let creates = needed_creates(segments, existing, default_branch, segments.len());
    let none = Seq::<PullRequestView>::empty();
    let steps = scheduled(segments, pushes, updates, creates, none)->Ok_0;
    let i = lemma_scheduled_steps_planned(segments, pushes, updates, creates, none, q);
    lemma_planned_step_origin(segments, pushes, updates, creates, none, i);
    lemma_needed_pushes_names(segments);
    lemma_needed_updates_names(segments, existing, default_branch, segments.len());
    lemma_needed_creates_names(segments, existing, default_branch, segments.len());
    match steps[q] {
        StepView::Push(bookmark) => {
            let j = choose|j: int|
                0 <= j < bookmark_names(pushes).len() && bookmark_names(pushes)[j]
                    == bookmark.name;
            assert(names.contains(pushes[j].name));
        },
        StepView::UpdateBase(update) => {
            let j = choose|j: int| 0 <= j < updates.len() && updates[j] == update;
            assert(names.take(segments.len() as int) =~= names);
            assert(names.contains(updates[j].bookmark.name));
        },
        StepView::CreatePr(create) => {
            let j = choose|j: int|
                0 <= j < create_names(creates).len() && create_names(creates)[j]
                    == create.bookmark.name;
            assert(names.contains(creates[j].bookmark.name));
        },
        StepView::PublishPr(pr) => {
            let j = choose|j: int| 0 <= j < none.len() && none[j] == pr;
        },
    }
}

/// Every edge comes from an obligation whose two operations are registered.
pub proof fn lemma_edge_has_constraint(
    constraints: Seq<ConstraintView>,
    registry: RegistryView,
    a: usize,
    c: usize,
) -> (k: int)
    requires
        has_edge(resolved_edges(constraints, registry), a, c),
    ensures
        0 <= k < constraints.len(),
        registry.resolve(constraints[k]) == Some((a, c)),
    decreases constraints.len(),
{
    if constraints.len() == 0 {
        let rows = resolved_edges(constraints, registry);
        let i = choose|i: int| 0 <= i < rows[a as int].len() && rows[a as int][i] == c;
        0
    } else {
        let before = constraints.drop_last();
        let rows = resolved_edges(before, registry);
        if has_edge(rows, a, c) {
            let k = lemma_edge_has_constraint(before, registry, a, c);
            assert(before[k] == constraints[k]);
            k
        } else {
            let all = resolved_edges(constraints, registry);
            let i = choose|i: int| 0 <= i < all[a as int].len() && all[a as int][i] == c;
            match registry.resolve(constraints.last()) {
                Some((f, t)) => {
                    if f == a {
                        if i < rows[a as int].len() {
                            assert(rows[a as int][i] == c);
                        }
                    } else {
                        assert(all[a as int] == rows[a as int]);
                    }
                },
                None => {},
            }
            constraints.len() - 1
        }
    }
}

/// `parent` and `child` are the bookmarks of two segments that follow
/// each other.
pub open spec fn are_neighbours(names: Seq<Seq<char>>, parent: Seq<char>, child: Seq<char>)
    -> bool {
    exists|m: int| 0 <= m && m + 1 < names.len() && #[trigger] names[m] == parent && names[m + 1]
        == child
}

/// One of the changes of base leads onto `base` for the pull request of `pr`.
pub open spec fn retargets_onto(updates: Seq<PrBaseUpdateView>, base: Seq<char>, pr: Seq<char>)
    -> bool {
    exists|j: int|
        0 <= j < updates.len() && (#[trigger] updates[j]).expected_base == base
            && updates[j].bookmark.name == pr
}

/// One of the changes of base is a swap that leads the pull request of
/// `pr` away from `old_base`.
pub open spec fn swaps_away_from(
    updates: Seq<PrBaseUpdateView>,
    names: Seq<Seq<char>>,
    pr: Seq<char>,
    old_base: Seq<char>,
) -> bool {
    exists|j: int|
        0 <= j < updates.len() && is_swap(#[trigger] updates[j], names)
            && updates[j].bookmark.name == pr && updates[j].current_base == old_base
}

/// Where an obligation comes from.
pub open spec fn constraint_grounded(
    constraint: ConstraintView,
    names: Seq<Seq<char>>,
    updates: Seq<PrBaseUpdateView>,
    creates: Seq<PrToCreateView>,
) -> bool {
    match constraint {
        ConstraintView::PushOrder { parent, child } => are_neighbours(names, parent, child),
        ConstraintView::PushBeforeRetarget { base, pr } => retargets_onto(updates, base, pr),
        ConstraintView::RetargetBeforePush { pr, old_base } => swaps_away_from(
            updates,
            names,
            pr,
            old_base,
        ),
        ConstraintView::PushBeforeCreate { push, create } => push == create && create_names(
            creates,
        ).contains(create),
        ConstraintView::CreateOrder { parent, child } => are_neighbours(names, parent, child),
    }
}

proof fn lemma_swaps_grounded(updates: Seq<PrBaseUpdateView>, names: Seq<Seq<char>>, k: int)
    requires
        0 <= k < push_after_retarget(updates, names).len(),
    ensures
        push_after_retarget(updates, names)[k] is RetargetBeforePush,
        constraint_grounded(push_after_retarget(updates, names)[k], names, updates, Seq::empty()),
    decreases updates.len(),
{
    let all = push_after_retarget(updates, names);
    let shorter = updates.drop_last();
    let rest = push_after_retarget(shorter, names);
    if k < rest.len() {
        lemma_swaps_grounded(shorter, names, k);
        assert(all[k] == rest[k]);
        let pr = rest[k]->RetargetBeforePush_pr;
        let old_base = rest[k]->RetargetBeforePush_old_base;
        let j = choose|j: int|
            0 <= j < shorter.len() && is_swap(#[trigger] shorter[j], names)
                && shorter[j].bookmark.name == pr && shorter[j].current_base == old_base;
        assert(updates[j] == shorter[j]);
    } else {
        assert(is_swap(updates[updates.len() - 1], names));
    }
}

/// Every obligation that is collected has its ground in the stack, in a
/// change of base or in a pull request to create.
pub proof fn lemma_constraint_origin(
    segments: Seq<NarrowedSegmentView>,
    updates: Seq<PrBaseUpdateView>,
    creates: Seq<PrToCreateView>,
    k: int,
)
    requires
        0 <= k < constraints_of(segments, updates, creates).len(),
    ensures
        constraint_grounded(
            constraints_of(segments, updates, creates)[k],
            narrowed_names(segments),
            updates,
            creates,
        ),
{
    let names = narrowed_names(segments);
    let a = push_orders(names);
    let b = retarget_after_push(updates);
    let c = push_after_retarget(updates, names);
    let d = create_after_push(creates);
    let e = create_orders(names);
    let all = a + b + c + d + e;
    if k < a.len() {
        assert(all[k] == a[k]);
        assert(names[k] == all[k]->PushOrder_parent);
    } else if k < (a + b).len() {
        let j = k - a.len();
        assert(all[k] == b[j]);
        assert(updates[j].expected_base == b[j]->PushBeforeRetarget_base);
    } else if k < (a + b + c).len() {
        let j = k - (a + b).len();
        assert(all[k] == c[j]);
        lemma_swaps_grounded(updates, names, j);
    } else if k < (a + b + c + d).len() {
        let j = k - (a + b + c).len();
        assert(all[k] == d[j]);
        assert(create_names(creates)[j] == creates[j].bookmark.name);
    } else {
        let j = k - (a + b + c + d).len();
        assert(all[k] == e[j]);
        assert(names[j] == all[k]->CreateOrder_parent);
    }
}

/// The pushes of the stack stand in the order of the stack.
proof fn lemma_stack_pushes_ascend(
    names: Seq<Seq<char>>,
    pushes: Seq<BookmarkView>,
    ta: int,
    tb: int,
    i: int,
    j: int,
)
    requires
        names.no_duplicates(),
        0 <= i < j < names.len(),
        0 <= ta < stack_pushes(names, pushes).len(),
        0 <= tb < stack_pushes(names, pushes).len(),
        stack_pushes(names, pushes)[ta].bookmark_name() == names[i],
        stack_pushes(names, pushes)[tb].bookmark_name() == names[j],
    ensures
        ta < tb,
    decreases names.len(),
{
    let shorter = names.drop_last();
    let rest = stack_pushes(shorter, pushes);
    let all = stack_pushes(names, pushes);
    lemma_stack_pushes(shorter, pushes);
    assert forall|t: int| 0 <= t < rest.len() implies (#[trigger] rest[t]).bookmark_name()
        != names.last() by {
        let k = choose|k: int| 0 <= k < shorter.len() && shorter[k] == rest[t].bookmark_name();
        assert(names[k] == shorter[k]);
    }
    if ta < rest.len() {
        assert(all[ta] == rest[ta]);
    }
    if tb < rest.len() {
        assert(all[tb] == rest[tb]);
    }
    if bookmark_names(pushes).contains(names.last()) {
        crate::text::lemma_first_position(bookmark_names(pushes), names.last());
        assert(all[rest.len() as int].bookmark_name() == names.last());
    }
    if j == names.len() - 1 {
        assert(tb == rest.len());
        assert(names[i] != names[j]);
        assert(ta < rest.len());
    } else {
        assert(names[i] != names[names.len() - 1]);
        assert(names[j] != names[names.len() - 1]);
        assert(ta < rest.len() && tb < rest.len());
        assert(shorter[i] == names[i] && shorter[j] == names[j]);
        lemma_stack_pushes_ascend(shorter, pushes, ta, tb, i, j);
    }
}

/// A planned push of a bookmark of the stack is one of the pushes of the
/// stack, which stand first among the planned steps.
proof fn lemma_stack_push_index(
    segments: Seq<NarrowedSegmentView>,
    pushes: Seq<BookmarkView>,
    updates: Seq<PrBaseUpdateView>,
    creates: Seq<PrToCreateView>,
    publishes: Seq<PullRequestView>,
    x: int,
)
    requires
        narrowed_names(segments).no_duplicates(),
        0 <= x < planned_steps(segments, pushes, updates, creates, publishes).len(),
        planned_steps(segments, pushes, updates, creates, publishes)[x] is Push,
        narrowed_names(segments).contains(
            planned_steps(segments, pushes, updates, creates, publishes)[x].bookmark_name(),
        ),
    ensures
        x < stack_pushes(narrowed_names(segments), pushes).len(),
        planned_steps(segments, pushes, updates, creates, publishes)[x] == stack_pushes(
            narrowed_names(segments),
            pushes,
        )[x],
{
    let names = narrowed_names(segments);
    let a = stack_pushes(names, pushes);
    let b = extra_pushes(names, pushes);
    let c = base_updates(updates);
    let d = stack_creates(names, creates);
    let e = publications(publishes);
    lemma_stack_pushes(names, pushes);
    lemma_extra_pushes(names, pushes);
    lemma_stack_creates(names, creates);
    let all = a + b + c + d + e;
    if x < a.len() {
        assert(all[x] == a[x]);
    } else if x < (a + b).len() {
        assert(all[x] == b[x - a.len()]);
    } else if x < (a + b + c).len() {
        assert(all[x] == c[x - (a + b).len()]);
    } else if x < (a + b + c + d).len() {
        assert(all[x] == d[x - (a + b + c).len()]);
        assert(d[x - (a + b + c).len()].kind() == StepKind::CreatePr);
    } else {
        assert(all[x] == e[x - (a + b + c + d).len()]);
    }
}

/// Of two bookmarks of the stack that are both pushed, the lower is pushed
/// first, whether or not the bookmarks between them are pushed, as long as
/// no pull request leaves a base at or below the lower bookmark that now
/// sits above the request's own bookmark.
pub proof fn lemma_push_order_across_gaps(
    segments: Seq<NarrowedSegmentView>,
    pushes: Seq<BookmarkView>,
    updates: Seq<PrBaseUpdateView>,
    creates: Seq<PrToCreateView>,
    publishes: Seq<PullRequestView>,
    i: int,
    j: int,
    p: int,
    q: int,
)
    requires
        inputs_distinct(segments, updates, publishes),
        planned_steps(segments, pushes, updates, creates, publishes).len() <= usize::MAX,
        scheduled(segments, pushes, updates, creates, publishes) is Ok,
        0 <= i < j < segments.len(),
        forall|k: int|
            0 <= k < updates.len() && is_swap(#[trigger] updates[k], narrowed_names(segments))
                ==> first_position(narrowed_names(segments), updates[k].current_base) > i,
        0 <= p < scheduled(segments, pushes, updates, creates, publishes)->Ok_0.len(),
        0 <= q < scheduled(segments, pushes, updates, creates, publishes)->Ok_0.len(),
        scheduled(segments, pushes, updates, creates, publishes)->Ok_0[p] is Push,
        scheduled(segments, pushes, updates, creates, publishes)->Ok_0[q] is Push,
        scheduled(segments, pushes, updates, creates, publishes)->Ok_0[p].bookmark_name()
            == segments[i].bookmark.name,
        scheduled(segments, pushes, updates, creates, publishes)->Ok_0[q].bookmark_name()
            == segments[j].bookmark.name,
    ensures
        p < q,
    decreases i,
{
    let names = narrowed_names(segments);
    let planned = planned_steps(segments, pushes, updates, creates, publishes);
    let nodes = nodes_of(planned);
    let registry = registry_of(planned);
    let constraints = constraints_of(segments, updates, creates);
    let edges = resolved_edges(constraints, registry);
    let order = schedule_order(ranks(nodes), edges);
    let steps = steps_in_order(nodes, order);
    assert(names[i] == segments[i].bookmark.name);
    assert(names[j] == segments[j].bookmark.name);
    assert(names[i] != names[j]);
    if q < p {
        lemma_schedule_respects_edges(ranks(nodes), edges);
        lemma_resolved_edges_len(constraints, registry);
        lemma_registry_entries(planned);
        let a = order[p];
        let b = order[q];
        assert(steps[p] == planned[a as int]);
        assert(steps[q] == planned[b as int]);
        lemma_stack_push_index(segments, pushes, updates, creates, publishes, a as int);
        lemma_stack_push_index(segments, pushes, updates, creates, publishes, b as int);
        lemma_stack_pushes_ascend(names, pushes, a as int, b as int, i, j);
        assert(ranks(nodes)[a as int] == a);
        assert(ranks(nodes)[b as int] == b);
        assert(key_before(ranks(nodes), a, b));
        let r = lemma_blocked_by_later_node(ranks(nodes), edges, q, p);
        let u = order[r];
        let k = lemma_edge_has_constraint(constraints, registry, u, a);
        lemma_constraint_origin(segments, updates, creates, k);
        let constraint = constraints[k];
        assert(registry.lookup(constraint.first().0, constraint.first().1) == Some(u));
        assert(registry.lookup(constraint.second().0, constraint.second().1) == Some(a));
        assert(step_key(planned[a as int]) == constraint.second());
        assert(step_key(planned[u as int]) == constraint.first());
        match constraint {
            ConstraintView::PushOrder { parent, child } => {
                let m = choose|m: int|
                    0 <= m && m + 1 < names.len() && #[trigger] names[m] == parent && names[m
                        + 1] == child;
                assert(names[m + 1] == names[i]);
                assert(m + 1 == i);
                assert(steps[r] == planned[u as int]);
                assert(steps[r].bookmark_name() == segments[i - 1].bookmark.name);
                assert(names[i - 1] != names[j]);
                assert(r != q);
                assert forall|k: int|
                    0 <= k < updates.len() && is_swap(
                        #[trigger] updates[k],
                        names,
                    ) implies first_position(names, updates[k].current_base) > i - 1 by {}
                lemma_push_order_across_gaps(
                    segments,
                    pushes,
                    updates,
                    creates,
                    publishes,
                    i - 1,
                    j,
                    r,
                    q,
                );
            },
            ConstraintView::RetargetBeforePush { pr, old_base } => {
                let w = choose|w: int|
                    0 <= w < updates.len() && is_swap(#[trigger] updates[w], names)
                        && updates[w].bookmark.name == pr && updates[w].current_base == old_base;
                assert(old_base == names[i]);
                assert(is_first_position(names, names[i], i));
                let f = first_position(names, names[i]);
                assert(is_first_position(names, names[i], f));
                assert(f == i);
            },
            _ => {},
        }
    }
}

/// Every change of base that a stack needs is for one of its segments and
/// leads onto the base that the stack calls for there.
proof fn lemma_needed_update_shape(
    segments: Seq<NarrowedSegmentView>,
    existing: Map<Seq<char>, PullRequestView>,
    default_branch: Seq<char>,
    upto: nat,
    j: int,
) -> (k: int)
    requires
        upto <= segments.len(),
        0 <= j < needed_updates(segments, existing, default_branch, upto).len(),
    ensures
        0 <= k < upto,
        needed_updates(segments, existing, default_branch, upto)[j].bookmark
            == segments[k].bookmark,
        needed_updates(segments, existing, default_branch, upto)[j].expected_base
            == crate::submit::planner::expected_base(segments, k, default_branch),
        needed_updates(segments, existing, default_branch, upto)[j].expected_base
            != needed_updates(segments, existing, default_branch, upto)[j].current_base,
    decreases upto,
{
    let rest = needed_updates(segments, existing, default_branch, (upto - 1) as nat);
    if j < rest.len() {
        lemma_needed_update_shape(segments, existing, default_branch, (upto - 1) as nat, j)
    } else {
        upto - 1
    }
}

/// The level of a step: pushes and changes of base interleave from the
/// bottom of the stack up, each change of base just below the push of its
/// bookmark; creations follow above all of them, from the bottom up.
pub open spec fn step_level(step: StepView, names: Seq<Seq<char>>) -> int {
    match step {
        StepView::Push(bookmark) => 2 * first_position(names, bookmark.name),
        StepView::UpdateBase(update) => 2 * first_position(names, update.bookmark.name) - 1,
        StepView::CreatePr(create) => 2 * names.len() + first_position(
            names,
            create.bookmark.name,
        ),
        StepView::PublishPr(pr) => 0,
    }
}

proof fn lemma_position_of_distinct(names: Seq<Seq<char>>, i: int)
    requires
        names.no_duplicates(),
        0 <= i < names.len(),
    ensures
        first_position(names, names[i]) == i,
        last_position(names, names[i]) == i,
{
    assert(is_first_position(names, names[i], i));
    assert(is_last_position(names, names[i], i));
    let f = first_position(names, names[i]);
    let l = last_position(names, names[i]);
    assert(is_first_position(names, names[i], f));
    assert(is_last_position(names, names[i], l));
}

/// A plan can always be made for a stack whose bookmarks are distinct and
/// none of which is called like the default branch: the obligations of such
/// a stack never contradict each other.
pub proof fn lemma_plan_exists(
    analysis: SubmissionAnalysisView,
    existing: Map<Seq<char>, PullRequestView>,
    remote: Seq<char>,
    default_branch: Seq<char>,
)
    requires
        narrowed_names(analysis.segments).no_duplicates(),
        !narrowed_names(analysis.segments).contains(default_branch),
        planned_steps(
            analysis.segments,
            needed_pushes(analysis.segments),
            needed_updates(analysis.segments, existing, default_branch, analysis.segments.len()),
            needed_creates(analysis.segments, existing, default_branch, analysis.segments.len()),
            Seq::empty(),
        ).len() <= usize::MAX,
    ensures
        plan_of(analysis, existing, remote, default_branch) is Ok,
{
    let segments = analysis.segments;
    let names = narrowed_names(segments);
    let pushes = needed_pushes(segments);
    let updates = needed_updates(segments, existing, default_branch, segments.len());
    let creates = needed_creates(segments, existing, default_branch, segments.len());
    let none = Seq::<PullRequestView>::empty();
    let planned = planned_steps(segments, pushes, updates, creates, none);
    let nodes = nodes_of(planned);
    let registry = registry_of(planned);
    let constraints = constraints_of(segments, updates, creates);
    let edges = resolved_edges(constraints, registry);
    let level = |x: usize| step_level(planned[x as int], names);
    lemma_needed_updates_names(segments, existing, default_branch, segments.len());
    assert(publish_names(none) =~= Seq::empty());
    lemma_planned_steps_distinct(segments, pushes, updates, creates, none);
    lemma_registry_exact(planned);
    lemma_registry_entries(planned);
    lemma_resolved_edges_len(constraints, registry);
    lemma_needed_pushes_names(segments);
    lemma_needed_creates_names(segments, existing, default_branch, segments.len());
    assert forall|u: usize, v: usize| #[trigger] has_edge(edges, u, v) implies level(u) < level(
        v,
    ) by {
        let k = lemma_edge_has_constraint(constraints, registry, u, v);
        lemma_constraint_origin(segments, updates, creates, k);
        let constraint = constraints[k];
        assert(registry.lookup(constraint.first().0, constraint.first().1) == Some(u));
        assert(registry.lookup(constraint.second().0, constraint.second().1) == Some(v));
        assert(step_key(planned[u as int]) == constraint.first());
        assert(step_key(planned[v as int]) == constraint.second());
        lemma_planned_step_origin(segments, pushes, updates, creates, none, u as int);
        lemma_planned_step_origin(segments, pushes, updates, creates, none, v as int);
        match constraint {
            ConstraintView::PushOrder { parent, child } => {
                let m = choose|m: int|
                    0 <= m && m + 1 < names.len() && #[trigger] names[m] == parent && names[m
                        + 1] == child;
                lemma_position_of_distinct(names, m);
                lemma_position_of_distinct(names, m + 1);
            },
            ConstraintView::PushBeforeRetarget { base, pr } => {
                let j = choose|j: int|
                    0 <= j < updates.len() && (#[trigger] updates[j]).expected_base == base
                        && updates[j].bookmark.name == pr;
                let at = lemma_needed_update_shape(
                    segments,
                    existing,
                    default_branch,
                    segments.len(),
                    j,
                );
                assert(names[at] == pr);
                lemma_position_of_distinct(names, at);
                // The base is pushed, so it is a bookmark of the stack.
                let w = choose|w: int|
                    0 <= w < bookmark_names(pushes).len() && bookmark_names(pushes)[w] == base;
                assert(names.contains(pushes[w].name));
                assert(at > 0);
                assert(names[at - 1] == base);
                lemma_position_of_distinct(names, at - 1);
            },
            ConstraintView::RetargetBeforePush { pr, old_base } => {
                let w = choose|w: int|
                    0 <= w < updates.len() && is_swap(#[trigger] updates[w], names)
                        && updates[w].bookmark.name == pr && updates[w].current_base == old_base;
                let a = choose|a: int| 0 <= a < names.len() && names[a] == pr;
                let b = choose|b: int| 0 <= b < names.len() && names[b] == old_base;
                lemma_position_of_distinct(names, a);
                lemma_position_of_distinct(names, b);
            },
            ConstraintView::PushBeforeCreate { push, create } => {
                let w = choose|w: int|
                    0 <= w < bookmark_names(pushes).len() && bookmark_names(pushes)[w] == push;
                assert(names.contains(pushes[w].name));
                let a = choose|a: int| 0 <= a < names.len() && names[a] == push;
                lemma_position_of_distinct(names, a);
            },
            ConstraintView::CreateOrder { parent, child } => {
                let m = choose|m: int|
                    0 <= m && m + 1 < names.len() && #[trigger] names[m] == parent && names[m
                        + 1] == child;
                lemma_position_of_distinct(names, m);
                lemma_position_of_distinct(names, m + 1);
            },
        }
    }
    lemma_levelled_graph_completes(ranks(nodes), edges, level);
}

/// In a plan, a pull request whose present base is a bookmark that sits
/// above the request's own bookmark in the stack is retargeted before that
/// bookmark is pushed.
pub proof fn lemma_plan_retargets_before_push_of_swapped_base(
    analysis: SubmissionAnalysisView,
    existing: Map<Seq<char>, PullRequestView>,
    remote: Seq<char>,
    default_branch: Seq<char>,
    i: int,
    j: int,
    p: int,
    q: int,
)
    requires
        narrowed_names(analysis.segments).no_duplicates(),
        planned_steps(
            analysis.segments,
            needed_pushes(analysis.segments),
            needed_updates(analysis.segments, existing, default_branch, analysis.segments.len()),
            needed_creates(analysis.segments, existing, default_branch, analysis.segments.len()),
            Seq::empty(),
        ).len() <= usize::MAX,
        plan_of(analysis, existing, remote, default_branch) is Ok,
        0 <= p < plan_of(analysis, existing, remote, default_branch)->Ok_0.execution_steps.len(),
        0 <= q < plan_of(analysis, existing, remote, default_branch)->Ok_0.execution_steps.len(),
        0 <= i < j < analysis.segments.len(),
        plan_of(analysis, existing, remote, default_branch)->Ok_0.execution_steps[q] is Push,
        plan_of(
            analysis,
            existing,
            remote,
            default_branch,
        )->Ok_0.execution_steps[p] matches StepView::UpdateBase(update) && update.bookmark.name
            == analysis.segments[i].bookmark.name && update.current_base
            == analysis.segments[j].bookmark.name && plan_of(
            analysis,
            existing,
            remote,
            default_branch,
        )->Ok_0.execution_steps[q].bookmark_name() == update.current_base,
    ensures
        p < q,
{
    let segments = analysis.segments;
    let names = narrowed_names(segments);
    let pushes = needed_pushes(segments);
    let updates = needed_updates(segments, existing, default_branch, segments.len());
    let creates = needed_creates(segments, existing, default_branch, segments.len());
    let none = Seq::<PullRequestView>::empty();
    let steps = scheduled(segments, pushes, updates, creates, none)->Ok_0;
    let update = steps[p]->UpdateBase_0;
    lemma_needed_updates_names(segments, existing, default_branch, segments.len());
    assert(publish_names(none) =~= Seq::empty());
    let x = lemma_scheduled_steps_planned(segments, pushes, updates, creates, none, p);
    lemma_planned_step_origin(segments, pushes, updates, creates, none, x);
    let w = choose|w: int| 0 <= w < updates.len() && updates[w] == update;
    let at = lemma_needed_update_shape(segments, existing, default_branch, segments.len(), w);
    assert(names[i] == update.bookmark.name);
    assert(names[j] == update.current_base);
    lemma_position_of_distinct(names, i);
    lemma_position_of_distinct(names, j);
    assert(is_swap(update, names));
    lemma_retarget_before_push_of_swapped_base(segments, pushes, updates, creates, none, p, q);
}

} // verus!
