//! Phase 2, the obligations: which operation has to wait for which, stated
//! by name, and the edges that the obligations amount to in a given plan.

use crate::submit::analysis::narrowed_names;
use crate::submit::plan::{
    ConstraintView, CreateRef, ExecutionConstraint, PrBaseUpdate, PrBaseUpdateView,
    PrToCreate, PrToCreateView, PushRef, UpdateRef,
};
use crate::submit::registry::{NodeRegistry, RegistryView};
use crate::submit::schedule::{edge_rows, edges_well_formed};
use crate::text::{is_last_position, last_position, same_text};
use crate::types::{NarrowedBookmarkSegment, NarrowedSegmentView};
use vstd::prelude::*;

verus! {

/// One obligation for each pair of neighbours in the stack: push the lower
/// bookmark before the upper.
pub open spec fn push_orders(names: Seq<Seq<char>>) -> Seq<ConstraintView> {
    Seq::new(
        if names.len() > 0 {
            (names.len() - 1) as nat
        } else {
            0
        },
        |i: int| ConstraintView::PushOrder { parent: names[i], child: names[i + 1] },
    )
}

/// One obligation for each pair of neighbours in the stack: create the
/// lower pull request before the upper.
pub open spec fn create_orders(names: Seq<Seq<char>>) -> Seq<ConstraintView> {
    Seq::new(
        if names.len() > 0 {
            (names.len() - 1) as nat
        } else {
            0
        },
        |i: int| ConstraintView::CreateOrder { parent: names[i], child: names[i + 1] },
    )
}

/// One obligation for each change of base: push the new base first.
pub open spec fn retarget_after_push(updates: Seq<PrBaseUpdateView>) -> Seq<ConstraintView> {
    updates.map_values(
        |update: PrBaseUpdateView|
            ConstraintView::PushBeforeRetarget {
                base: update.expected_base,
                pr: update.bookmark.name,
            },
    )
}

/// One obligation for each pull request to create: push its bookmark first.
pub open spec fn create_after_push(creates: Seq<PrToCreateView>) -> Seq<ConstraintView> {
    creates.map_values(
        |create: PrToCreateView|
            ConstraintView::PushBeforeCreate {
                push: create.bookmark.name,
                create: create.bookmark.name,
            },
    )
}

/// The base that the request of `update` leaves is a bookmark which now
/// sits above the request's own bookmark in the stack.
pub open spec fn is_swap(update: PrBaseUpdateView, names: Seq<Seq<char>>) -> bool {
    &&& update.expected_base != update.current_base
    &&& names.contains(update.current_base)
    &&& names.contains(update.bookmark.name)
    &&& last_position(names, update.current_base) > last_position(names, update.bookmark.name)
}

/// One obligation for each change of base that is a swap: retarget the
/// request before its former base is pushed.
pub open spec fn push_after_retarget(updates: Seq<PrBaseUpdateView>, names: Seq<Seq<char>>)
    -> Seq<ConstraintView>
    decreases updates.len(),
{
    if updates.len() == 0 {
        Seq::empty()
    } else {
        let rest = push_after_retarget(updates.drop_last(), names);
        if is_swap(updates.last(), names) {
            rest.push(
                ConstraintView::RetargetBeforePush {
                    pr: updates.last().bookmark.name,
                    old_base: updates.last().current_base,
                },
            )
        } else {
            rest
        }
    }
}

/// All the obligations for a stack, its changes of base and the pull
/// requests to create, whether or not the operations they name will be part
/// of the plan.
pub open spec fn constraints_of(
    segments: Seq<NarrowedSegmentView>,
    updates: Seq<PrBaseUpdateView>,
    creates: Seq<PrToCreateView>,
) -> Seq<ConstraintView> {
    let names = narrowed_names(segments);
    push_orders(names) + retarget_after_push(updates) + push_after_retarget(updates, names)
        + create_after_push(creates) + create_orders(names)
}

/// The position of the last segment whose bookmark is called `name`.
fn stack_position(segments: &[NarrowedBookmarkSegment], name: &str) -> (r: Option<usize>)
    ensures
        match r {
            Some(i) => is_last_position(narrowed_names(segments.deep_view()), name@, i as int)
                && i == last_position(narrowed_names(segments.deep_view()), name@),
            None => !narrowed_names(segments.deep_view()).contains(name@),
        },
{
    let ghost names = narrowed_names(segments.deep_view());
    let mut i: usize = segments.len();
    while i > 0
        invariant
            names == narrowed_names(segments.deep_view()),
            i <= segments.len(),
            forall|k: int| i <= k < segments.len() ==> names[k] != name@,
        decreases i,
    {
        i -= 1;
        if same_text(segments[i].bookmark.name.as_str(), name) {
            assert(is_last_position(names, name@, i as int));
            return Some(i);
        }
    }
    None
}

/// Appends `more` to `list`.
fn append_constraints(list: &mut Vec<ExecutionConstraint>, more: Vec<ExecutionConstraint>)
    ensures
        final(list).deep_view() == old(list).deep_view() + more.deep_view(),
{
    let mut more = more;
    let ghost a = list.deep_view();
    let ghost b = more.deep_view();
    let ghost ra = list@;
    let ghost rb = more@;
    list.append(&mut more);
    assert(list@ == ra + rb);
    assert(list.deep_view() =~= a + b) by {
        assert forall|i: int| 0 <= i < list@.len() implies list.deep_view()[i] == (a + b)[i] by {
            if i < ra.len() {
                assert(list@[i] == ra[i]);
            } else {
                assert(list@[i] == rb[i - ra.len()]);
            }
        }
    }
}

/// Collects the ordering obligations: neighbours in the stack are pushed,
/// and their pull requests created, from the bottom up; a pull request is
/// retargeted after its new base is pushed, and before its former base is
/// pushed where that base has moved above it; a pull request is created
/// after its bookmark is pushed.
pub fn collect_constraints(
    segments: &[NarrowedBookmarkSegment],
    prs_to_update_base: &[PrBaseUpdate],
    prs_to_create: &[PrToCreate],
) -> (constraints: Vec<ExecutionConstraint>)
    ensures
        constraints.deep_view() == constraints_of(
            segments.deep_view(),
            prs_to_update_base.deep_view(),
            prs_to_create.deep_view(),
        ),
{
    let ghost names = narrowed_names(segments.deep_view());
    let ghost updates = prs_to_update_base.deep_view();
    let ghost creates = prs_to_create.deep_view();
    let mut constraints: Vec<ExecutionConstraint> = Vec::new();

    let pairs: usize = if segments.len() > 0 {
        segments.len() - 1
    } else {
        0
    };
    let mut i: usize = 0;
    while i < pairs
        invariant
            names == narrowed_names(segments.deep_view()),
            pairs == push_orders(names).len(),
            pairs < segments.len() || segments.len() == 0,
            i <= pairs,
            constraints.len() == i,
            forall|k: int| 0 <= k < i ==> constraints@[k]@ == push_orders(names)[k],
        decreases pairs - i,
    {
        constraints.push(
            ExecutionConstraint::PushOrder {
                parent: PushRef(segments[i].bookmark.name.clone()),
                child: PushRef(segments[i + 1].bookmark.name.clone()),
            },
        );
        i += 1;
    }
    assert(constraints.deep_view() =~= push_orders(names));

    let mut part: Vec<ExecutionConstraint> = Vec::new();
    let mut i: usize = 0;
    while i < prs_to_update_base.len()
        invariant
            updates == prs_to_update_base.deep_view(),
            i <= prs_to_update_base.len(),
            part.len() == i,
            forall|k: int| 0 <= k < i ==> part@[k]@ == retarget_after_push(updates)[k],
        decreases prs_to_update_base.len() - i,
    {
        let update = &prs_to_update_base[i];
        part.push(
            ExecutionConstraint::PushBeforeRetarget {
                base: PushRef(update.expected_base.clone()),
                pr: UpdateRef(update.bookmark.name.clone()),
            },
        );
        i += 1;
    }
    assert(part.deep_view() =~= retarget_after_push(updates));
    append_constraints(&mut constraints, part);

    let mut part: Vec<ExecutionConstraint> = Vec::new();
    let mut i: usize = 0;
    assert(updates.take(0) =~= Seq::empty());
    assert(part.deep_view() =~= Seq::empty());
    while i < prs_to_update_base.len()
        invariant
            names == narrowed_names(segments.deep_view()),
            updates == prs_to_update_base.deep_view(),
            i <= prs_to_update_base.len(),
            part.deep_view() == push_after_retarget(updates.take(i as int), names),
        decreases prs_to_update_base.len() - i,
    {
        let update = &prs_to_update_base[i];
        proof {
            assert(updates.take(i + 1).drop_last() =~= updates.take(i as int));
            assert(updates.take(i + 1).last() == update@);
        }
        let ghost before = part.deep_view();
        if !(update.expected_base == update.current_base) {
            let current = stack_position(segments, update.current_base.as_str());
            let own = stack_position(segments, update.bookmark.name.as_str());
            match (current, own) {
                (Some(current), Some(own)) => {
                    if current > own {
                        assert(is_swap(update@, names));
                        part.push(
                            ExecutionConstraint::RetargetBeforePush {
                                pr: UpdateRef(update.bookmark.name.clone()),
                                old_base: PushRef(update.current_base.clone()),
                            },
                        );
                        assert(part.deep_view() =~= before.push(
                            ConstraintView::RetargetBeforePush {
                                pr: update@.bookmark.name,
                                old_base: update@.current_base,
                            },
                        ));
                    }
                },
                _ => {},
            }
        }
        i += 1;
    }
    assert(updates.take(i as int) =~= updates);
    append_constraints(&mut constraints, part);

    let mut part: Vec<ExecutionConstraint> = Vec::new();
    let mut i: usize = 0;
    while i < prs_to_create.len()
        invariant
            creates == prs_to_create.deep_view(),
            i <= prs_to_create.len(),
            part.len() == i,
            forall|k: int| 0 <= k < i ==> part@[k]@ == create_after_push(creates)[k],
        decreases prs_to_create.len() - i,
    {
        let create = &prs_to_create[i];
        part.push(
            ExecutionConstraint::PushBeforeCreate {
                push: PushRef(create.bookmark.name.clone()),
                create: CreateRef(create.bookmark.name.clone()),
            },
        );
        i += 1;
    }
    assert(part.deep_view() =~= create_after_push(creates));
    append_constraints(&mut constraints, part);

    let mut part: Vec<ExecutionConstraint> = Vec::new();
    let mut i: usize = 0;
    while i < pairs
        invariant
            names == narrowed_names(segments.deep_view()),
            pairs == create_orders(names).len(),
            pairs < segments.len() || segments.len() == 0,
            i <= pairs,
            part.len() == i,
            forall|k: int| 0 <= k < i ==> part@[k]@ == create_orders(names)[k],
        decreases pairs - i,
    {
        part.push(
            ExecutionConstraint::CreateOrder {
                parent: CreateRef(segments[i].bookmark.name.clone()),
                child: CreateRef(segments[i + 1].bookmark.name.clone()),
            },
        );
        i += 1;
    }
    assert(part.deep_view() =~= create_orders(names));
    append_constraints(&mut constraints, part);
    constraints
}

/// The rows after an edge from `from` to `to` was added. An edge that is
/// there already is not added again.
pub open spec fn with_edge(rows: Seq<Seq<usize>>, from: usize, to: usize) -> Seq<Seq<usize>> {
    if from < rows.len() && !rows[from as int].contains(to) {
        rows.update(from as int, rows[from as int].push(to))
    } else {
        rows
    }
}

/// The edges that the obligations amount to: one row of successors for each
/// registered operation, and an edge for each obligation whose two
/// operations are both registered.
pub open spec fn resolved_edges(constraints: Seq<ConstraintView>, registry: RegistryView) -> Seq<
    Seq<usize>,
>
    decreases constraints.len(),
{
    if constraints.len() == 0 {
        Seq::new(registry.count, |i: int| Seq::empty())
    } else {
        let rows = resolved_edges(constraints.drop_last(), registry);
        match registry.resolve(constraints.last()) {
            Some((from, to)) => with_edge(rows, from, to),
            None => rows,
        }
    }
}

/// Every registered node lies below the number of registered operations.
pub open spec fn registry_in_range(registry: RegistryView) -> bool {
    forall|kind: crate::submit::plan::StepKind, name: Seq<char>|
        (#[trigger] registry.lookup(kind, name)) matches Some(i) ==> i < registry.count
}

/// The edges of a registry whose nodes are in range are well formed.
pub proof fn lemma_resolved_edges_well_formed(
    constraints: Seq<ConstraintView>,
    registry: RegistryView,
)
    requires
        registry_in_range(registry),
        registry.count <= usize::MAX,
    ensures
        edges_well_formed(resolved_edges(constraints, registry), registry.count),
    decreases constraints.len(),
{
    if constraints.len() > 0 {
        lemma_resolved_edges_well_formed(constraints.drop_last(), registry);
        match registry.resolve(constraints.last()) {
            Some((from, to)) => {
                let c = constraints.last();
                assert(registry.lookup(c.first().0, c.first().1) == Some(from));
                assert(registry.lookup(c.second().0, c.second().1) == Some(to));
            },
            None => {},
        }
    }
}

/// Whether `row` holds `to`.
fn row_contains(row: &Vec<usize>, to: usize) -> (r: bool)
    ensures
        r == row@.contains(to),
{
    let mut k: usize = 0;
    while k < row.len()
        invariant
            k <= row.len(),
            forall|j: int| 0 <= j < k ==> row@[j] != to,
        decreases row.len() - k,
    {
        if row[k] == to {
            return true;
        }
        k += 1;
    }
    false
}

/// Turns the obligations into edges between the nodes of a plan. An
/// obligation that names an operation which the plan does not contain is
/// passed over; an edge is recorded once, however many obligations ask for it.
pub fn resolve_constraints(constraints: &[ExecutionConstraint], registry: &NodeRegistry) -> (edges:
    Vec<Vec<usize>>)
    requires
        registry@.count <= usize::MAX,
        registry_in_range(registry@),
    ensures
        edge_rows(edges@) == resolved_edges(constraints.deep_view(), registry@),
        edges_well_formed(edge_rows(edges@), registry@.count),
{
    let n = registry.len();
    let ghost list = constraints.deep_view();
    let mut edges: Vec<Vec<usize>> = Vec::new();
    let mut i: usize = 0;
    while i < n
        invariant
            i <= n,
            edges.len() == i,
            forall|k: int| 0 <= k < i ==> (#[trigger] edges@[k])@ == Seq::<usize>::empty(),
        decreases n - i,
    {
        edges.push(Vec::new());
        i += 1;
    }
    assert(list.take(0) =~= Seq::empty());
    assert(edge_rows(edges@) =~= resolved_edges(list.take(0), registry@));
    let mut i: usize = 0;
    while i < constraints.len()
        invariant
            n == registry@.count,
            list == constraints.deep_view(),
            registry_in_range(registry@),
            i <= constraints.len(),
            edges.len() == n,
            edge_rows(edges@) == resolved_edges(list.take(i as int), registry@),
        decreases constraints.len() - i,
    {
        proof {
            assert(list.take(i + 1).drop_last() =~= list.take(i as int));
            assert(list.take(i + 1).last() == constraints@[i as int]@);
        }
        let ghost rows = edge_rows(edges@);
        match constraints[i].resolve(registry) {
            Some((from, to)) => {
                proof {
                    let c = constraints@[i as int]@;
                    assert(registry@.lookup(c.first().0, c.first().1) == Some(from));
                }
                assert(edges@[from as int]@ == rows[from as int]);
                if !row_contains(&edges[from], to) {
                    edges[from].push(to);
                    assert(edge_rows(edges@) =~= with_edge(rows, from, to));
                }
            },
            None => {},
        }
        i += 1;
    }
    proof {
        assert(list.take(i as int) =~= list);
        lemma_resolved_edges_well_formed(list, registry@);
    }
    edges
}

} // verus!
