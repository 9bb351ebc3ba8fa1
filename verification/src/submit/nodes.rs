//! Phase 2, the nodes: one for every operation that the plan contains.

use crate::submit::analysis::narrowed_names;
use crate::submit::plan::{
    ExecutionStep, PrBaseUpdate, PrBaseUpdateView, PrToCreate, PrToCreateView, StepKind, StepView,
};
use crate::submit::registry::{NodeRegistry, RegistryView};
use crate::submit::schedule::{ExecutionNode, NodeView};
use crate::text::{first_position, is_first_position, same_text};
use crate::types::{
    Bookmark, BookmarkView, NarrowedBookmarkSegment, NarrowedSegmentView, PullRequest,
    PullRequestView,
};
use vstd::prelude::*;

verus! {

/// The names of the bookmarks, in order.
pub open spec fn bookmark_names(bookmarks: Seq<BookmarkView>) -> Seq<Seq<char>> {
    bookmarks.map_values(|b: BookmarkView| b.name)
}

/// The names of the bookmarks whose pull requests are to be created.
pub open spec fn create_names(creates: Seq<PrToCreateView>) -> Seq<Seq<char>> {
    creates.map_values(|c: PrToCreateView| c.bookmark.name)
}

/// The pushes of the bookmarks of the stack, from the bottom up: for each
/// name of the stack that has to be pushed, the first bookmark of that name.
pub open spec fn stack_pushes(names: Seq<Seq<char>>, pushes: Seq<BookmarkView>) -> Seq<StepView>
    decreases names.len(),
{
    if names.len() == 0 {
        Seq::empty()
    } else {
        let rest = stack_pushes(names.drop_last(), pushes);
        if bookmark_names(pushes).contains(names.last()) {
            rest.push(
                StepView::Push(pushes[first_position(bookmark_names(pushes), names.last())]),
            )
        } else {
            rest
        }
    }
}

/// The pushes of bookmarks that are not part of the stack, each name once.
pub open spec fn extra_pushes(names: Seq<Seq<char>>, pushes: Seq<BookmarkView>) -> Seq<StepView>
    decreases pushes.len(),
{
    if pushes.len() == 0 {
        Seq::empty()
    } else {
        let rest = extra_pushes(names, pushes.drop_last());
        let name = pushes.last().name;
        if !names.contains(name) && !bookmark_names(pushes.drop_last()).contains(name) {
            rest.push(StepView::Push(pushes.last()))
        } else {
            rest
        }
    }
}

/// The changes of base, in the order given.
pub open spec fn base_updates(updates: Seq<PrBaseUpdateView>) -> Seq<StepView> {
    updates.map_values(|u: PrBaseUpdateView| StepView::UpdateBase(u))
}

/// The creations of pull requests for the bookmarks of the stack, from the
/// bottom up: for each name of the stack that needs a pull request, the
/// first entry for that name.
pub open spec fn stack_creates(names: Seq<Seq<char>>, creates: Seq<PrToCreateView>) -> Seq<
    StepView,
>
    decreases names.len(),
{
    if names.len() == 0 {
        Seq::empty()
    } else {
        let rest = stack_creates(names.drop_last(), creates);
        if create_names(creates).contains(names.last()) {
            rest.push(
                StepView::CreatePr(creates[first_position(create_names(creates), names.last())]),
            )
        } else {
            rest
        }
    }
}

/// The publications, in the order given.
pub open spec fn publications(prs: Seq<PullRequestView>) -> Seq<StepView> {
    prs.map_values(|pr: PullRequestView| StepView::PublishPr(pr))
}

/// The operations of a plan in the order in which their nodes are made:
/// pushes, changes of base, creations, publications.
pub open spec fn planned_steps(
    segments: Seq<NarrowedSegmentView>,
    pushes: Seq<BookmarkView>,
    updates: Seq<PrBaseUpdateView>,
    creates: Seq<PrToCreateView>,
    publishes: Seq<PullRequestView>,
) -> Seq<StepView> {
    let names = narrowed_names(segments);
    stack_pushes(names, pushes) + extra_pushes(names, pushes) + base_updates(updates)
        + stack_creates(names, creates) + publications(publishes)
}

/// The nodes for `steps`: each step with its position as rank.
pub open spec fn nodes_of(steps: Seq<StepView>) -> Seq<NodeView> {
    Seq::new(steps.len(), |i: int| NodeView { step: steps[i], order: i as usize })
}

/// The registry for `steps`: each step registered under its kind and the
/// name of its bookmark, with its position as node.
pub open spec fn registry_of(steps: Seq<StepView>) -> RegistryView
    decreases steps.len(),
{
    if steps.len() == 0 {
        RegistryView::empty()
    } else {
        registry_of(steps.drop_last()).with(
            steps.last().kind(),
            steps.last().bookmark_name(),
            (steps.len() - 1) as usize,
        )
    }
}

/// Adds a node for `step` and registers it.
fn add_node(
    nodes: &mut Vec<ExecutionNode>,
    registry: &mut NodeRegistry,
    step: ExecutionStep,
    Ghost(steps): Ghost<Seq<StepView>>,
)
    requires
        old(nodes).deep_view() == nodes_of(steps),
        old(registry)@ == registry_of(steps),
    ensures
        final(nodes).deep_view() == nodes_of(steps.push(step@)),
        final(registry)@ == registry_of(steps.push(step@)),
        final(registry)@ == old(registry)@.with(
            step@.kind(),
            step@.bookmark_name(),
            steps.len() as usize,
        ),
{
    let idx = nodes.len();
    assert(nodes.deep_view().len() == idx);
    assert(steps.len() == idx);
    registry.register(step.kind(), step.bookmark_name(), idx);
    let ghost before = nodes.deep_view();
    let node = ExecutionNode { step, order: idx };
    nodes.push(node);
    proof {
        assert(steps.push(step@).drop_last() =~= steps);
        assert(nodes.deep_view() =~= before.push(node@));
        assert(nodes.deep_view() =~= nodes_of(steps.push(step@)));
    }
}

/// The position of the first bookmark called `name`.
fn find_bookmark(bookmarks: &[Bookmark], name: &str) -> (r: Option<usize>)
    ensures
        match r {
            Some(i) => is_first_position(bookmark_names(bookmarks.deep_view()), name@, i as int)
                && i == first_position(bookmark_names(bookmarks.deep_view()), name@),
            None => !bookmark_names(bookmarks.deep_view()).contains(name@),
        },
{
    let ghost names = bookmark_names(bookmarks.deep_view());
    let mut i: usize = 0;
    while i < bookmarks.len()
        invariant
            names == bookmark_names(bookmarks.deep_view()),
            i <= bookmarks.len(),
            forall|k: int| 0 <= k < i ==> names[k] != name@,
        decreases bookmarks.len() - i,
    {
        if same_text(bookmarks[i].name.as_str(), name) {
            assert(is_first_position(names, name@, i as int));
            return Some(i);
        }
        i += 1;
    }
    None
}

/// The position of the first pull request to create for `name`.
fn find_create(creates: &[PrToCreate], name: &str) -> (r: Option<usize>)
    ensures
        match r {
            Some(i) => is_first_position(create_names(creates.deep_view()), name@, i as int) && i
                == first_position(create_names(creates.deep_view()), name@),
            None => !create_names(creates.deep_view()).contains(name@),
        },
{
    let ghost names = create_names(creates.deep_view());
    let mut i: usize = 0;
    while i < creates.len()
        invariant
            names == create_names(creates.deep_view()),
            i <= creates.len(),
            forall|k: int| 0 <= k < i ==> names[k] != name@,
        decreases creates.len() - i,
    {
        if same_text(creates[i].bookmark.name.as_str(), name) {
            assert(is_first_position(names, name@, i as int));
            return Some(i);
        }
        i += 1;
    }
    None
}

/// Makes a node for every operation of the plan and registers it: the
/// pushes of the stack from the bottom up, other pushes, the changes of
/// base, the creations from the bottom up, the publications. A node's rank
/// is its position.
pub fn build_execution_nodes(
    segments: &[NarrowedBookmarkSegment],
    bookmarks_needing_push: &[Bookmark],
    prs_to_update_base: &[PrBaseUpdate],
    prs_to_create: &[PrToCreate],
    prs_to_publish: &[PullRequest],
) -> (r: (Vec<ExecutionNode>, NodeRegistry))
    ensures
        r.0.deep_view() == nodes_of(
            planned_steps(
                segments.deep_view(),
                bookmarks_needing_push.deep_view(),
                prs_to_update_base.deep_view(),
                prs_to_create.deep_view(),
                prs_to_publish.deep_view(),
            ),
        ),
        r.1@ == registry_of(
            planned_steps(
                segments.deep_view(),
                bookmarks_needing_push.deep_view(),
                prs_to_update_base.deep_view(),
                prs_to_create.deep_view(),
                prs_to_publish.deep_view(),
            ),
        ),
{
    let ghost names = narrowed_names(segments.deep_view());
    let ghost pushes = bookmarks_needing_push.deep_view();
    let ghost updates = prs_to_update_base.deep_view();
    let ghost creates = prs_to_create.deep_view();
    let ghost publishes = prs_to_publish.deep_view();
    let mut nodes: Vec<ExecutionNode> = Vec::new();
    let mut registry = NodeRegistry::new();
    let ghost mut steps: Seq<StepView> = Seq::empty();
    assert(nodes.deep_view() =~= nodes_of(steps));

    // Pushes of the stack, from the bottom up.
    let mut i: usize = 0;
    assert(names.take(0) =~= Seq::empty());
    while i < segments.len()
        invariant
            names == narrowed_names(segments.deep_view()),
            pushes == bookmarks_needing_push.deep_view(),
            i <= segments.len(),
            steps == stack_pushes(names.take(i as int), pushes),
            nodes.deep_view() == nodes_of(steps),
            registry@ == registry_of(steps),
            registry@.update == Map::<Seq<char>, usize>::empty(),
            registry@.create == Map::<Seq<char>, usize>::empty(),
            registry@.publish == Map::<Seq<char>, usize>::empty(),
            forall|x: Seq<char>| #[trigger]
                registry@.push.contains_key(x) <==> names.take(i as int).contains(x)
                    && bookmark_names(pushes).contains(x),
        decreases segments.len() - i,
    {
        let name = segments[i].bookmark.name.as_str();
        assert(name@ == names[i as int]);
        proof {
            assert(names.take(i + 1).drop_last() =~= names.take(i as int));
            assert(names.take(i + 1).last() == names[i as int]);
        }
        let ghost seen = names.take(i as int);
        let ghost old_keys = registry@.push;
        let ghost mut added = false;
        match find_bookmark(bookmarks_needing_push, name) {
            Some(j) => {
                let step = ExecutionStep::Push(bookmarks_needing_push[j].clone());
                assert(step@ == StepView::Push(pushes[j as int]));
                assert(bookmark_names(pushes)[j as int] == name@);
                add_node(&mut nodes, &mut registry, step, Ghost(steps));
                proof {
                    steps = steps.push(step@);
                    added = true;
                    assert(registry@.push == old_keys.insert(name@, (steps.len() - 1) as usize));
                }
            },
            None => {},
        }
        proof {
            let now = names.take(i + 1);
            assert(now[i as int] == name@);
            assert(added == bookmark_names(pushes).contains(name@));
            assert forall|x: Seq<char>| now.contains(x) <==> seen.contains(x) || x == name@ by {
                if now.contains(x) {
                    let k = choose|k: int| 0 <= k < now.len() && now[k] == x;
                    if k < i {
                        assert(seen[k] == x);
                    }
                }
                if seen.contains(x) {
                    let k = choose|k: int| 0 <= k < seen.len() && seen[k] == x;
                    assert(now[k] == x);
                }
            }
            assert forall|x: Seq<char>| #[trigger]
                registry@.push.contains_key(x) <==> now.contains(x) && bookmark_names(
                    pushes,
                ).contains(x) by {
                assert(registry@.push.contains_key(x) <==> old_keys.contains_key(x) || (added && x
                    == name@));
                assert(old_keys.contains_key(x) <==> seen.contains(x) && bookmark_names(
                    pushes,
                ).contains(x));
            }
        }
        i += 1;
    }
    assert(names.take(i as int) =~= names);

    // Pushes of bookmarks outside the stack.
    let ghost base = steps;
    let mut i: usize = 0;
    assert(pushes.take(0) =~= Seq::empty());
    assert(steps =~= base + extra_pushes(names, pushes.take(0)));
    assert(bookmark_names(pushes.take(0)) =~= Seq::empty());
    assert forall|x: Seq<char>| #[trigger]
        registry@.push.contains_key(x) <==> (names.contains(x) && bookmark_names(pushes).contains(
            x,
        )) || bookmark_names(pushes.take(0)).contains(x) by {
        assert(!bookmark_names(pushes.take(0)).contains(x));
    }
    while i < bookmarks_needing_push.len()
        invariant
            pushes == bookmarks_needing_push.deep_view(),
            names == narrowed_names(segments.deep_view()),
            i <= bookmarks_needing_push.len(),
            steps == base + extra_pushes(names, pushes.take(i as int)),
            nodes.deep_view() == nodes_of(steps),
            registry@ == registry_of(steps),
            registry@.update == Map::<Seq<char>, usize>::empty(),
            registry@.create == Map::<Seq<char>, usize>::empty(),
            registry@.publish == Map::<Seq<char>, usize>::empty(),
            forall|x: Seq<char>| #[trigger]
                registry@.push.contains_key(x) <==> (names.contains(x) && bookmark_names(
                    pushes,
                ).contains(x)) || bookmark_names(pushes.take(i as int)).contains(x),
        decreases bookmarks_needing_push.len() - i,
    {
        let bookmark = &bookmarks_needing_push[i];
        let ghost seen = bookmark_names(pushes.take(i as int));
        proof {
            assert(pushes.take(i + 1).drop_last() =~= pushes.take(i as int));
            assert(pushes.take(i + 1).last() == bookmark@);
            assert(bookmark_names(pushes)[i as int] == bookmark@.name);
        }
        let ghost so_far = extra_pushes(names, pushes.take(i as int));
        let ghost old_keys = registry@.push;
        let ghost mut added = false;
        let ghost name = bookmark@.name;
        proof {
            let full = bookmark_names(pushes);
            assert(full[i as int] == name);
            assert(full.contains(name));
            assert(pushes.take(i + 1).drop_last() =~= pushes.take(i as int));
            assert(old_keys.contains_key(name) <==> names.contains(name) || seen.contains(name));
        }
        if registry.lookup(StepKind::Push, bookmark.name.as_str()).is_none() {
            let step = ExecutionStep::Push(bookmark.clone());
            add_node(&mut nodes, &mut registry, step, Ghost(steps));
            proof {
                steps = steps.push(step@);
                added = true;
                assert(registry@.push == old_keys.insert(name, (steps.len() - 1) as usize));
                assert(extra_pushes(names, pushes.take(i + 1)) == so_far.push(step@));
                assert(steps =~= base + so_far.push(step@));
            }
        } else {
            assert(extra_pushes(names, pushes.take(i + 1)) == so_far);
        }
        proof {
            let now = bookmark_names(pushes.take(i + 1));
            assert(now[i as int] == name);
            assert forall|x: Seq<char>| now.contains(x) <==> seen.contains(x) || x == name by {
                if now.contains(x) {
                    let k = choose|k: int| 0 <= k < now.len() && now[k] == x;
                    if k < i {
                        assert(seen[k] == x);
                    }
                }
                if seen.contains(x) {
                    let k = choose|k: int| 0 <= k < seen.len() && seen[k] == x;
                    assert(now[k] == x);
                }
            }
            assert forall|x: Seq<char>| #[trigger]
                registry@.push.contains_key(x) <==> (names.contains(x) && bookmark_names(
                    pushes,
                ).contains(x)) || now.contains(x) by {
                assert(registry@.push.contains_key(x) <==> old_keys.contains_key(x) || (added && x
                    == name));
                assert(old_keys.contains_key(x) <==> (names.contains(x) && bookmark_names(
                    pushes,
                ).contains(x)) || seen.contains(x));
            }
        }
        i += 1;
    }
    assert(pushes.take(i as int) =~= pushes);

    // Changes of base.
    let ghost base = steps;
    let mut i: usize = 0;
    assert(steps =~= base + base_updates(updates).take(0));
    while i < prs_to_update_base.len()
        invariant
            updates == prs_to_update_base.deep_view(),
            i <= prs_to_update_base.len(),
            steps == base + base_updates(updates).take(i as int),
            nodes.deep_view() == nodes_of(steps),
            registry@ == registry_of(steps),
        decreases prs_to_update_base.len() - i,
    {
        let step = ExecutionStep::UpdateBase(prs_to_update_base[i].clone());
        add_node(&mut nodes, &mut registry, step, Ghost(steps));
        proof {
            steps = steps.push(step@);
            assert(steps =~= base + base_updates(updates).take(i + 1));
        }
        i += 1;
    }
    assert(base_updates(updates).take(i as int) =~= base_updates(updates));

    // Creations, from the bottom up.
    let ghost base = steps;
    let mut i: usize = 0;
    assert(steps =~= base + stack_creates(names.take(0), creates));
    while i < segments.len()
        invariant
            names == narrowed_names(segments.deep_view()),
            creates == prs_to_create.deep_view(),
            i <= segments.len(),
            steps == base + stack_creates(names.take(i as int), creates),
            nodes.deep_view() == nodes_of(steps),
            registry@ == registry_of(steps),
        decreases segments.len() - i,
    {
        let name = segments[i].bookmark.name.as_str();
        assert(name@ == names[i as int]);
        proof {
            assert(names.take(i + 1).drop_last() =~= names.take(i as int));
            assert(names.take(i + 1).last() == names[i as int]);
        }
        let ghost so_far = stack_creates(names.take(i as int), creates);
        match find_create(prs_to_create, name) {
            Some(j) => {
                let step = ExecutionStep::CreatePr(prs_to_create[j].clone());
                assert(step@ == StepView::CreatePr(creates[j as int]));
                add_node(&mut nodes, &mut registry, step, Ghost(steps));
                proof {
                    steps = steps.push(step@);
                    assert(steps =~= base + so_far.push(step@));
                }
            },
            None => {},
        }
        i += 1;
    }
    assert(names.take(i as int) =~= names);

    // Publications.
    let ghost base = steps;
    let mut i: usize = 0;
    assert(steps =~= base + publications(publishes).take(0));
    while i < prs_to_publish.len()
        invariant
            publishes == prs_to_publish.deep_view(),
            i <= prs_to_publish.len(),
            steps == base + publications(publishes).take(i as int),
            nodes.deep_view() == nodes_of(steps),
            registry@ == registry_of(steps),
        decreases prs_to_publish.len() - i,
    {
        let step = ExecutionStep::PublishPr(prs_to_publish[i].clone());
        add_node(&mut nodes, &mut registry, step, Ghost(steps));
        proof {
            steps = steps.push(step@);
            assert(steps =~= base + publications(publishes).take(i + 1));
        }
        i += 1;
    }
    assert(publications(publishes).take(i as int) =~= publications(publishes));
    (nodes, registry)
}

} // verus!
