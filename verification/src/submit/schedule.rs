//! Phase 2, the ordering: operations as nodes of a graph, ordering
//! obligations as its edges, and the order in which the operations run.

use crate::error::{Error, ErrorView};
use crate::submit::plan::{clone_steps, ExecutionStep, StepView};
use vstd::prelude::*;

verus! {

/// One operation with the rank that settles ties between operations that
/// are ready at the same time.
#[derive(Debug)]
pub struct ExecutionNode {
    /// The operation.
    pub step: ExecutionStep,
    /// Its rank: of two ready operations the one of lower rank runs first.
    pub order: usize,
}

/// The view of an [`ExecutionNode`].
pub struct NodeView {
    pub step: StepView,
    pub order: usize,
}

impl View for ExecutionNode {
    type V = NodeView;

    open spec fn view(&self) -> NodeView {
        NodeView { step: self.step@, order: self.order }
    }
}

impl DeepView for ExecutionNode {
    type V = NodeView;

    open spec fn deep_view(&self) -> NodeView {
        self@
    }
}

impl Clone for ExecutionNode {
    fn clone(&self) -> (r: Self)
        ensures
            r@ == self@,
    {
        ExecutionNode { step: self.step.clone(), order: self.order }
    }
}

/// The ranks of the nodes, node by node.
pub open spec fn ranks(nodes: Seq<NodeView>) -> Seq<usize> {
    nodes.map_values(|node: NodeView| node.order)
}

/// There is one row of successors for each of the `n` nodes, and every
/// successor is one of the nodes.
pub open spec fn edges_well_formed(edges: Seq<Seq<usize>>, n: nat) -> bool {
    &&& edges.len() == n
    &&& forall|u: int, k: int|
        0 <= u < n && 0 <= k < edges[u].len() ==> (#[trigger] edges[u][k]) < n
}

/// Node `u` has to run before node `v`.
pub open spec fn has_edge(edges: Seq<Seq<usize>>, u: usize, v: usize) -> bool {
    u < edges.len() && edges[u as int].contains(v)
}

/// Node `v` has not run, and every node that has to run before it has.
pub open spec fn is_ready(edges: Seq<Seq<usize>>, done: Seq<usize>, v: usize) -> bool {
    &&& v < edges.len()
    &&& !done.contains(v)
    &&& forall|u: usize| #[trigger] has_edge(edges, u, v) ==> done.contains(u)
}

/// Node `a` wins a tie against node `b`: lower rank first, then lower index.
pub open spec fn key_before(orders: Seq<usize>, a: usize, b: usize) -> bool {
    orders[a as int] < orders[b as int] || (orders[a as int] == orders[b as int] && a < b)
}

/// Node `v` is the one to run next: it is ready and wins against every
/// other ready node.
pub open spec fn is_next(
    orders: Seq<usize>,
    edges: Seq<Seq<usize>>,
    done: Seq<usize>,
    v: usize,
) -> bool {
    &&& is_ready(edges, done, v)
    &&& forall|w: usize| #[trigger] is_ready(edges, done, w) && w != v ==> key_before(orders, v, w)
}

/// The order in which the nodes run when `done` have run already: as long
/// as a node is ready, the ready node that wins all ties runs next.
pub open spec fn run_order(orders: Seq<usize>, edges: Seq<Seq<usize>>, done: Seq<usize>) -> Seq<
    usize,
>
    decreases edges.len() - done.len(),
{
    if done.len() < edges.len() && exists|v: usize| is_next(orders, edges, done, v) {
        run_order(orders, edges, done.push(choose|v: usize| is_next(orders, edges, done, v)))
    } else {
        done
    }
}

/// The order in which the nodes of a graph run. Nodes that lie on a cycle,
/// or behind one, are missing from it.
pub open spec fn schedule_order(orders: Seq<usize>, edges: Seq<Seq<usize>>) -> Seq<usize> {
    run_order(orders, edges, Seq::empty())
}

/// `done` lists nodes of the graph, none twice, and each after all the
/// nodes that have to run before it.
pub open spec fn respects_edges(edges: Seq<Seq<usize>>, done: Seq<usize>) -> bool {
    &&& done.no_duplicates()
    &&& forall|q: int| 0 <= q < done.len() ==> (#[trigger] done[q]) < edges.len()
    &&& forall|q: int, u: usize|
        0 <= q < done.len() && #[trigger] has_edge(edges, u, done[q]) ==> exists|p: int|
            0 <= p < q && done[p] == u
}

/// `order` is a linearization of the whole graph: every node once, each
/// after the nodes that have to run before it.
pub open spec fn is_linearization(edges: Seq<Seq<usize>>, order: Seq<usize>) -> bool {
    order.len() == edges.len() && respects_edges(edges, order)
}

/// At most one node is the one to run next.
pub proof fn lemma_next_unique(
    orders: Seq<usize>,
    edges: Seq<Seq<usize>>,
    done: Seq<usize>,
    v: usize,
    w: usize,
)
    requires
        is_next(orders, edges, done, v),
        is_next(orders, edges, done, w),
    ensures
        v == w,
{
    if v != w {
        assert(key_before(orders, v, w));
        assert(key_before(orders, w, v));
    }
}

/// A list of distinct nodes that leaves a node out is shorter than the
/// number of nodes.
pub proof fn lemma_room_left(done: Seq<usize>, n: nat, v: usize)
    requires
        done.no_duplicates(),
        forall|q: int| 0 <= q < done.len() ==> (#[trigger] done[q]) < n,
        v < n,
        !done.contains(v),
    ensures
        done.len() < n,
{
    broadcast use vstd::set::group_set_axioms;

    let ints = done.map_values(|x: usize| x as int);
    assert(ints.no_duplicates()) by {
        assert forall|i: int, j: int| 0 <= i < ints.len() && 0 <= j < ints.len() && i != j implies ints[i]
            != ints[j] by {
            assert(done[i] != done[j]);
        }
    }
    ints.unique_seq_to_set();
    vstd::set_lib::lemma_int_range(0, n as int);
    let all = vstd::set_lib::set_int_range(0, n as int);
    let rest = all.remove(v as int);
    assert(ints.to_set().subset_of(rest)) by {
        assert forall|x: int| ints.to_set().contains(x) implies rest.contains(x) by {
            let i = choose|i: int| 0 <= i < ints.len() && ints[i] == x;
            assert(done[i] < n);
            if x == v as int {
                assert(done[i] == v);
                assert(done.contains(v));
            }
        }
    }
    vstd::set_lib::lemma_len_subset(ints.to_set(), rest);
}

/// A list that respects the edges still does so with a ready node behind it.
pub proof fn lemma_ready_node_extends(edges: Seq<Seq<usize>>, done: Seq<usize>, v: usize)
    requires
        respects_edges(edges, done),
        is_ready(edges, done, v),
    ensures
        respects_edges(edges, done.push(v)),
{
    let more = done.push(v);
    assert forall|q: int, u: usize|
        0 <= q < more.len() && #[trigger] has_edge(edges, u, more[q]) implies exists|p: int|
        0 <= p < q && more[p] == u by {
        if q < done.len() {
            assert(has_edge(edges, u, done[q]));
            let p = choose|p: int| 0 <= p < q && done[p] == u;
            assert(more[p] == u);
        } else {
            assert(done.contains(u));
            let p = choose|p: int| 0 <= p < done.len() && done[p] == u;
            assert(more[p] == u);
        }
    }
}

/// The nodes that ran before stay in front, and the order respects the
/// edges if the nodes that ran before did.
pub proof fn lemma_run_order_sound(orders: Seq<usize>, edges: Seq<Seq<usize>>, done: Seq<usize>)
    requires
        respects_edges(edges, done),
    ensures
        respects_edges(edges, run_order(orders, edges, done)),
        done.len() <= run_order(orders, edges, done).len(),
        run_order(orders, edges, done).take(done.len() as int) == done,
    decreases edges.len() - done.len(),
{
    if done.len() < edges.len() && exists|v: usize| is_next(orders, edges, done, v) {
        let v = choose|v: usize| is_next(orders, edges, done, v);
        let more = done.push(v);
        lemma_ready_node_extends(edges, done, v);
        lemma_run_order_sound(orders, edges, more);
        assert(run_order(orders, edges, done).take(done.len() as int) =~= done) by {
            let all = run_order(orders, edges, more);
            assert(all.take(more.len() as int) == more);
            assert forall|i: int| 0 <= i < done.len() implies all[i] == done[i] by {
                assert(all.take(more.len() as int)[i] == more[i]);
            }
        }
    } else {
        assert(done.take(done.len() as int) =~= done);
    }
}

/// The order of a graph respects its edges: it lists no node twice, and
/// each node after all the nodes that have to run before it.
pub proof fn lemma_schedule_respects_edges(orders: Seq<usize>, edges: Seq<Seq<usize>>)
    ensures
        respects_edges(edges, schedule_order(orders, edges)),
{
    lemma_run_order_sound(orders, edges, Seq::empty());
}

/// Of two nodes that an edge joins, the first stands earlier in the order
/// wherever the second stands in it.
pub proof fn lemma_edge_orders_positions(
    orders: Seq<usize>,
    edges: Seq<Seq<usize>>,
    u: usize,
    v: usize,
    q: int,
)
    requires
        has_edge(edges, u, v),
        0 <= q < schedule_order(orders, edges).len(),
        schedule_order(orders, edges)[q] == v,
    ensures
        exists|p: int| 0 <= p < q && schedule_order(orders, edges)[p] == u,
{
    lemma_schedule_respects_edges(orders, edges);
}

/// If some node is ready, some node is the one to run next.
pub proof fn lemma_ready_gives_next(
    orders: Seq<usize>,
    edges: Seq<Seq<usize>>,
    done: Seq<usize>,
    v: usize,
)
    requires
        is_ready(edges, done, v),
    ensures
        exists|w: usize| is_next(orders, edges, done, w),
{
    let w = lemma_least_ready(orders, edges, done, usize::MAX + 1);
    assert(is_next(orders, edges, done, w));
}

/// The ready node below `upto` that wins against all other ready nodes
/// below `upto`.
proof fn lemma_least_ready(
    orders: Seq<usize>,
    edges: Seq<Seq<usize>>,
    done: Seq<usize>,
    upto: int,
) -> (w: usize)
    requires
        0 <= upto <= usize::MAX + 1,
        exists|v: usize| v < upto && is_ready(edges, done, v),
    ensures
        w < upto,
        is_ready(edges, done, w),
        forall|x: usize|
            x < upto && #[trigger] is_ready(edges, done, x) && x != w ==> key_before(orders, w, x),
    decreases upto,
{
    let v = choose|v: usize| v < upto && is_ready(edges, done, v);
    let last = (upto - 1) as usize;
    if exists|v: usize| v < last && is_ready(edges, done, v) {
        let b = lemma_least_ready(orders, edges, done, upto - 1);
        if is_ready(edges, done, last) && key_before(orders, last, b) {
            assert forall|x: usize|
                x < upto && #[trigger] is_ready(edges, done, x) && x != last implies key_before(
                orders,
                last,
                x,
            ) by {
                if x != b {
                    assert(key_before(orders, b, x));
                }
            }
            last
        } else {
            b
        }
    } else {
        last
    }
}

/// When the order leaves nodes out, no node is ready at its end.
pub proof fn lemma_run_order_ends_stuck(
    orders: Seq<usize>,
    edges: Seq<Seq<usize>>,
    done: Seq<usize>,
)
    requires
        respects_edges(edges, done),
    ensures
        forall|v: usize| !is_ready(edges, run_order(orders, edges, done), v),
    decreases edges.len() - done.len(),
{
    if done.len() < edges.len() && exists|v: usize| is_next(orders, edges, done, v) {
        let v = choose|v: usize| is_next(orders, edges, done, v);
        lemma_run_order_sound(orders, edges, done);
        let more = done.push(v);
        lemma_ready_node_extends(edges, done, v);
        lemma_run_order_ends_stuck(orders, edges, more);
        assert(run_order(orders, edges, done) == run_order(orders, edges, more));
    } else {
        assert forall|v: usize| !is_ready(edges, done, v) by {
            if is_ready(edges, done, v) {
                lemma_room_left(done, edges.len(), v);
                lemma_ready_gives_next(orders, edges, done, v);
            }
        }
    }
}

/// A closed walk along the edges: each node of `cycle` has to run before
/// the next, and the last before the first.
pub open spec fn is_cycle(edges: Seq<Seq<usize>>, cycle: Seq<usize>) -> bool {
    &&& cycle.len() > 0
    &&& forall|i: int|
        0 <= i < cycle.len() ==> has_edge(
            edges,
            #[trigger] cycle[i],
            cycle[if i + 1 < cycle.len() {
                i + 1
            } else {
                0
            }],
        )
}

/// No node of a cycle is in the order.
pub proof fn lemma_cycle_nodes_never_run(
    orders: Seq<usize>,
    edges: Seq<Seq<usize>>,
    cycle: Seq<usize>,
)
    requires
        is_cycle(edges, cycle),
    ensures
        forall|i: int|
            0 <= i < cycle.len() ==> !schedule_order(orders, edges).contains(#[trigger] cycle[i]),
{
    let order = schedule_order(orders, edges);
    lemma_schedule_respects_edges(orders, edges);
    if exists|i: int| 0 <= i < cycle.len() && order.contains(cycle[i]) {
        let q = lemma_first_cycle_position(order, cycle, order.len() as int);
        let i = choose|i: int| 0 <= i < cycle.len() && cycle[i] == order[q];
        let before = if i == 0 {
            cycle.len() - 1
        } else {
            i - 1
        };
        assert(has_edge(
            edges,
            cycle[before],
            cycle[if before + 1 < cycle.len() {
                before + 1
            } else {
                0
            }],
        ));
        assert(has_edge(edges, cycle[before], order[q]));
        let p = choose|p: int| 0 <= p < q && order[p] == cycle[before];
        assert(cycle.contains(order[p]));
    }
}

/// The first position of `order` before `upto` that holds a node of `cycle`.
proof fn lemma_first_cycle_position(order: Seq<usize>, cycle: Seq<usize>, upto: int) -> (q: int)
    requires
        0 <= upto <= order.len(),
        exists|p: int| 0 <= p < upto && cycle.contains(order[p]),
    ensures
        0 <= q < upto,
        cycle.contains(order[q]),
        forall|p: int| 0 <= p < q ==> !cycle.contains(#[trigger] order[p]),
    decreases upto,
{
    if exists|p: int| 0 <= p < upto - 1 && cycle.contains(order[p]) {
        lemma_first_cycle_position(order, cycle, upto - 1)
    } else {
        upto - 1
    }
}

/// The node that stands `k` steps back from `v`, where each step goes from
/// a node to one that has to run before it and is missing from `order`.
pub open spec fn step_back(edges: Seq<Seq<usize>>, order: Seq<usize>, v: usize, k: nat) -> usize
    decreases k,
{
    if k == 0 {
        v
    } else {
        let w = step_back(edges, order, v, (k - 1) as nat);
        choose|u: usize| #[trigger] has_edge(edges, u, w) && !order.contains(u)
    }
}

/// Where no node is ready, the steps back from a node that is missing from
/// the order stay among the missing nodes, each along an edge.
proof fn lemma_step_back(edges: Seq<Seq<usize>>, order: Seq<usize>, v: usize, k: nat)
    requires
        forall|w: usize| !is_ready(edges, order, w),
        v < edges.len(),
        !order.contains(v),
    ensures
        step_back(edges, order, v, k) < edges.len(),
        !order.contains(step_back(edges, order, v, k)),
        k > 0 ==> has_edge(
            edges,
            step_back(edges, order, v, k),
            step_back(edges, order, v, (k - 1) as nat),
        ),
    decreases k,
{
    if k > 0 {
        lemma_step_back(edges, order, v, (k - 1) as nat);
        let w = step_back(edges, order, v, (k - 1) as nat);
        assert(!is_ready(edges, order, w));
    }
}

/// The nodes of a graph by ascending index.
pub open spec fn all_nodes(n: nat) -> Seq<usize> {
    Seq::new(n, |i: int| i as usize)
}

/// A list of distinct nodes that is not as long as the graph leaves a node
/// out.
proof fn lemma_missing_node(order: Seq<usize>, n: nat) -> (v: usize)
    requires
        n <= usize::MAX,
        order.no_duplicates(),
        forall|q: int| 0 <= q < order.len() ==> (#[trigger] order[q]) < n,
        order.len() != n,
    ensures
        v < n,
        !order.contains(v),
{
    let all = all_nodes(n);
    assert forall|q: int| 0 <= q < order.len() implies all.contains(#[trigger] order[q]) by {
        assert(all[order[q] as int] == order[q]);
    }
    lemma_no_longer_than(order, all);
    if forall|q: int| 0 <= q < all.len() ==> order.contains(#[trigger] all[q]) {
        lemma_no_longer_than(all, order);
    }
    let q = choose|q: int| 0 <= q < all.len() && !order.contains(#[trigger] all[q]);
    all[q]
}

/// A walk of more steps than there are nodes comes by a node twice.
proof fn lemma_walk_repeats(walk: Seq<usize>, n: nat) -> (ends: (int, int))
    requires
        walk.len() == n + 1,
        forall|k: int| 0 <= k < walk.len() ==> (#[trigger] walk[k]) < n,
    ensures
        0 <= ends.0 < ends.1 < walk.len(),
        walk[ends.0] == walk[ends.1],
{
    if walk.no_duplicates() {
        let head = walk.take(n as int);
        assert forall|p: int| 0 <= p < head.len() implies (#[trigger] head[p]) < n by {
            assert(head[p] == walk[p]);
        }
        if head.contains(walk[n as int]) {
            let p = choose|p: int| 0 <= p < head.len() && head[p] == walk[n as int];
            assert(walk[p] == walk[n as int]);
        }
        lemma_room_left(head, n, walk[n as int]);
    }
    let (a, b) = choose|a: int, b: int|
        0 <= a < walk.len() && 0 <= b < walk.len() && a != b && walk[a] == walk[b];
    if a < b {
        (a, b)
    } else {
        (b, a)
    }
}

/// A walk against the edges that comes back to a node holds a cycle: the
/// part between the two visits, read backwards.
proof fn lemma_walk_holds_cycle(edges: Seq<Seq<usize>>, walk: Seq<usize>, lo: int, hi: int) -> (cycle:
    Seq<usize>)
    requires
        0 <= lo < hi < walk.len(),
        walk[lo] == walk[hi],
        forall|k: int| 0 < k < walk.len() ==> has_edge(edges, #[trigger] walk[k], walk[k - 1]),
    ensures
        is_cycle(edges, cycle),
{
    let cycle = Seq::new((hi - lo) as nat, |k: int| walk[hi - 1 - k]);
    assert forall|i: int| 0 <= i < cycle.len() implies has_edge(
        edges,
        #[trigger] cycle[i],
        cycle[if i + 1 < cycle.len() {
            i + 1
        } else {
            0
        }],
    ) by {
        if i + 1 < cycle.len() {
            assert(has_edge(edges, walk[hi - 1 - i], walk[hi - 1 - i - 1]));
        } else {
            assert(cycle[i] == walk[lo]);
            assert(has_edge(edges, walk[hi], walk[hi - 1]));
        }
    }
    cycle
}

/// When the order leaves a node out, the edges form a cycle, and no node
/// of that cycle is in the order.
pub proof fn lemma_incomplete_order_has_cycle(orders: Seq<usize>, edges: Seq<Seq<usize>>) -> (cycle:
    Seq<usize>)
    requires
        edges.len() <= usize::MAX,
        schedule_order(orders, edges).len() != edges.len(),
    ensures
        is_cycle(edges, cycle),
        forall|i: int|
            0 <= i < cycle.len() ==> !schedule_order(orders, edges).contains(#[trigger] cycle[i]),
{
    let order = schedule_order(orders, edges);
    let n = edges.len();
    lemma_schedule_respects_edges(orders, edges);
    lemma_run_order_ends_stuck(orders, edges, Seq::empty());
    let v = lemma_missing_node(order, n);
    let walk = Seq::new(n + 1, |k: int| step_back(edges, order, v, k as nat));
    assert forall|k: int| 0 <= k < walk.len() implies (#[trigger] walk[k]) < n by {
        lemma_step_back(edges, order, v, k as nat);
    }
    assert forall|k: int| 0 < k < walk.len() implies has_edge(
        edges,
        #[trigger] walk[k],
        walk[k - 1],
    ) by {
        lemma_step_back(edges, order, v, k as nat);
    }
    let (lo, hi) = lemma_walk_repeats(walk, n);
    let cycle = lemma_walk_holds_cycle(edges, walk, lo, hi);
    lemma_cycle_nodes_never_run(orders, edges, cycle);
    cycle
}

/// When the order leaves a node out, the graph has no linearization.
pub proof fn lemma_incomplete_order_means_no_linearization(
    orders: Seq<usize>,
    edges: Seq<Seq<usize>>,
    any: Seq<usize>,
)
    requires
        schedule_order(orders, edges).len() < edges.len(),
    ensures
        !is_linearization(edges, any),
{
    let order = schedule_order(orders, edges);
    lemma_schedule_respects_edges(orders, edges);
    lemma_run_order_ends_stuck(orders, edges, Seq::empty());
    if is_linearization(edges, any) {
        // Some node of `any` is missing from `order`, else `any` would be too long.
        if forall|q: int| 0 <= q < any.len() ==> order.contains(#[trigger] any[q]) {
            lemma_no_longer_than(any, order);
        }
        let q = lemma_first_missing(any, order, any.len() as int);
        let v = any[q];
        assert(!is_ready(edges, order, v));
        let u = choose|u: usize| #[trigger] has_edge(edges, u, v) && !order.contains(u);
        let p = choose|p: int| 0 <= p < q && any[p] == u;
        assert(order.contains(any[p]));
    }
}

/// The first position of `any` before `upto` whose node is missing from `order`.
proof fn lemma_first_missing(any: Seq<usize>, order: Seq<usize>, upto: int) -> (q: int)
    requires
        0 <= upto <= any.len(),
        exists|p: int| 0 <= p < upto && !order.contains(any[p]),
    ensures
        0 <= q < upto,
        !order.contains(any[q]),
        forall|p: int| 0 <= p < q ==> order.contains(#[trigger] any[p]),
    decreases upto,
{
    if exists|p: int| 0 <= p < upto - 1 && !order.contains(any[p]) {
        lemma_first_missing(any, order, upto - 1)
    } else {
        upto - 1
    }
}

/// A list without repetitions whose members all occur in another list is
/// no longer than that list.
proof fn lemma_no_longer_than(a: Seq<usize>, b: Seq<usize>)
    requires
        a.no_duplicates(),
        forall|q: int| 0 <= q < a.len() ==> b.contains(#[trigger] a[q]),
    ensures
        a.len() <= b.len(),
{
    a.unique_seq_to_set();
    b.lemma_cardinality_of_set();
    assert(a.to_set().subset_of(b.to_set())) by {
        assert forall|x: usize| a.to_set().contains(x) implies b.to_set().contains(x) by {
            let q = choose|q: int| 0 <= q < a.len() && a[q] == x;
            assert(b.contains(a[q]));
        }
    }
    broadcast use vstd::seq_lib::seq_to_set_is_finite;

    vstd::set_lib::lemma_len_subset(a.to_set(), b.to_set());
}

/// Every node of the order was, when its turn came, the ready node that
/// wins all ties.
pub proof fn lemma_run_order_picks_next(
    orders: Seq<usize>,
    edges: Seq<Seq<usize>>,
    done: Seq<usize>,
    q: int,
)
    requires
        respects_edges(edges, done),
        done.len() <= q < run_order(orders, edges, done).len(),
    ensures
        is_next(
            orders,
            edges,
            run_order(orders, edges, done).take(q),
            run_order(orders, edges, done)[q],
        ),
    decreases edges.len() - done.len(),
{
    if done.len() < edges.len() && exists|v: usize| is_next(orders, edges, done, v) {
        let v = choose|v: usize| is_next(orders, edges, done, v);
        let more = done.push(v);
        lemma_ready_node_extends(edges, done, v);
        let all = run_order(orders, edges, done);
        assert(all == run_order(orders, edges, more));
        lemma_run_order_sound(orders, edges, more);
        if q == done.len() {
            assert(all.take(more.len() as int) == more);
            assert(all[q] == more[q]);
            assert(all.take(q) =~= done) by {
                assert forall|i: int| 0 <= i < q implies all[i] == done[i] by {
                    assert(all.take(more.len() as int)[i] == more[i]);
                }
            }
        } else {
            lemma_run_order_picks_next(orders, edges, more, q);
        }
    }
}

/// Where a node stands behind a node that it would win a tie against, one
/// of the nodes that have to run before it stands at or behind that node.
pub proof fn lemma_blocked_by_later_node(
    orders: Seq<usize>,
    edges: Seq<Seq<usize>>,
    q: int,
    p: int,
) -> (r: int)
    requires
        0 <= q < p < schedule_order(orders, edges).len(),
        key_before(orders, schedule_order(orders, edges)[p], schedule_order(orders, edges)[q]),
    ensures
        q <= r < p,
        has_edge(edges, schedule_order(orders, edges)[r], schedule_order(orders, edges)[p]),
{
    let order = schedule_order(orders, edges);
    let v = order[p];
    let w = order[q];
    lemma_schedule_respects_edges(orders, edges);
    lemma_run_order_picks_next(orders, edges, Seq::empty(), q);
    let before = order.take(q);
    assert(is_next(orders, edges, before, w));
    if before.contains(v) {
        let j = choose|j: int| 0 <= j < before.len() && before[j] == v;
        assert(order[j] == order[p]);
    }
    assert(!is_ready(edges, before, v));
    let u = choose|u: usize| #[trigger] has_edge(edges, u, v) && !before.contains(u);
    assert(has_edge(edges, u, order[p]));
    let r = choose|r: int| 0 <= r < p && order[r] == u;
    if r < q {
        assert(before[r] == u);
    }
    r
}

/// A graph whose edges all lead from a lower to a higher level has an
/// order that holds every node.
pub proof fn lemma_levelled_graph_completes(
    orders: Seq<usize>,
    edges: Seq<Seq<usize>>,
    level: spec_fn(usize) -> int,
)
    requires
        edges.len() <= usize::MAX,
        forall|u: usize, v: usize| #[trigger] has_edge(edges, u, v) ==> level(u) < level(v),
    ensures
        schedule_order(orders, edges).len() == edges.len(),
{
    let order = schedule_order(orders, edges);
    let n = edges.len();
    lemma_schedule_respects_edges(orders, edges);
    lemma_run_order_ends_stuck(orders, edges, Seq::empty());
    if exists|v: usize| v < n && !order.contains(v) {
        let v = lemma_lowest_missing(order, level, n as int);
        assert(!is_ready(edges, order, v));
        let u = choose|u: usize| #[trigger] has_edge(edges, u, v) && !order.contains(u);
        assert(level(u) < level(v));
    } else {
        let all = Seq::new(n, |i: int| i as usize);
        assert forall|i: int| 0 <= i < all.len() implies order.contains(#[trigger] all[i]) by {
            assert(all[i] < n);
        }
        lemma_no_longer_than(all, order);
        assert forall|i: int| 0 <= i < order.len() implies all.contains(#[trigger] order[i]) by {
            assert(all[order[i] as int] == order[i]);
        }
        lemma_no_longer_than(order, all);
    }
}

/// A missing node below `upto` whose level no missing node below `upto`
/// undercuts.
proof fn lemma_lowest_missing(order: Seq<usize>, level: spec_fn(usize) -> int, upto: int) -> (v:
    usize)
    requires
        0 <= upto <= usize::MAX + 1,
        exists|x: usize| x < upto && !order.contains(x),
    ensures
        v < upto,
        !order.contains(v),
        forall|x: usize| x < upto && !order.contains(x) ==> level(v) <= #[trigger] level(x),
    decreases upto,
{
    let last = (upto - 1) as usize;
    if exists|x: usize| x < last && !order.contains(x) {
        let b = lemma_lowest_missing(order, level, upto - 1);
        if !order.contains(last) && level(last) < level(b) {
            last
        } else {
            b
        }
    } else {
        last
    }
}

/// The rows of successors, each by its view.
pub open spec fn edge_rows(edges: Seq<Vec<usize>>) -> Seq<Seq<usize>> {
    edges.map_values(|row: Vec<usize>| row@)
}

/// How often `v` occurs in `row`.
pub open spec fn occurrences(row: Seq<usize>, v: usize) -> nat
    decreases row.len(),
{
    if row.len() == 0 {
        0
    } else {
        occurrences(row.drop_last(), v) + if row.last() == v {
            1nat
        } else {
            0nat
        }
    }
}

/// The number of edges into `v` from those of the first `m` nodes that
/// have not run.
pub open spec fn pending_from(edges: Seq<Seq<usize>>, done: Seq<usize>, v: usize, m: nat) -> nat
    decreases m,
{
    if m == 0 {
        0
    } else {
        pending_from(edges, done, v, (m - 1) as nat) + if done.contains((m - 1) as usize) {
            0nat
        } else {
            occurrences(edges[m - 1], v)
        }
    }
}

proof fn lemma_occurrences_bounds(row: Seq<usize>, v: usize)
    ensures
        occurrences(row, v) <= row.len(),
        occurrences(row, v) == 0 <==> !row.contains(v),
    decreases row.len(),
{
    if row.len() > 0 {
        lemma_occurrences_bounds(row.drop_last(), v);
        if row.contains(v) && row.last() != v {
            let k = choose|k: int| 0 <= k < row.len() && row[k] == v;
            assert(row.drop_last()[k] == v);
        }
        if row.drop_last().contains(v) {
            let k = choose|k: int| 0 <= k < row.drop_last().len() && row.drop_last()[k] == v;
            assert(row[k] == v);
        }
    }
}

proof fn lemma_occurrences_step(row: Seq<usize>, k: int, v: usize)
    requires
        0 <= k < row.len(),
    ensures
        occurrences(row.take(k + 1), v) == occurrences(row.take(k), v) + if row[k] == v {
            1nat
        } else {
            0nat
        },
        occurrences(row.take(k + 1), v) <= occurrences(row, v),
    decreases row.len() - k,
{
    assert(row.take(k + 1).drop_last() =~= row.take(k));
    if k + 1 < row.len() {
        lemma_occurrences_step(row, k + 1, v);
    } else {
        assert(row.take(k + 1) =~= row);
    }
}

proof fn lemma_pending_zero(edges: Seq<Seq<usize>>, done: Seq<usize>, v: usize, m: nat)
    requires
        m <= edges.len(),
        m <= usize::MAX + 1,
    ensures
        pending_from(edges, done, v, m) == 0 <==> forall|u: usize|
            u < m && #[trigger] has_edge(edges, u, v) ==> done.contains(u),
    decreases m,
{
    if m > 0 {
        let last = (m - 1) as usize;
        lemma_pending_zero(edges, done, v, (m - 1) as nat);
        lemma_occurrences_bounds(edges[m - 1], v);
        if pending_from(edges, done, v, m) == 0 {
            assert forall|u: usize| u < m && #[trigger] has_edge(edges, u, v) implies done.contains(
                u,
            ) by {
                if u == last {
                } else {
                    assert(u < m - 1);
                }
            }
        } else {
            if pending_from(edges, done, v, (m - 1) as nat) != 0 {
                let u = choose|u: usize|
                    u < m - 1 && #[trigger] has_edge(edges, u, v) && !done.contains(u);
                assert(u < m && has_edge(edges, u, v) && !done.contains(u));
            } else {
                assert(has_edge(edges, last, v) && !done.contains(last));
            }
        }
    }
}

proof fn lemma_pending_after_run(
    edges: Seq<Seq<usize>>,
    done: Seq<usize>,
    u: usize,
    v: usize,
    m: nat,
)
    requires
        m <= edges.len(),
        m <= usize::MAX + 1,
        !done.contains(u),
    ensures
        pending_from(edges, done, v, m) == pending_from(edges, done.push(u), v, m) + if u < m {
            occurrences(edges[u as int], v)
        } else {
            0nat
        },
    decreases m,
{
    if m > 0 {
        let last = (m - 1) as usize;
        lemma_pending_after_run(edges, done, u, v, (m - 1) as nat);
        if last == u {
            assert(done.push(u)[done.len() as int] == u);
        } else if done.contains(last) {
            let k = choose|k: int| 0 <= k < done.len() && done[k] == last;
            assert(done.push(u)[k] == last);
        } else {
            if done.push(u).contains(last) {
                let k = choose|k: int| 0 <= k < done.push(u).len() && done.push(u)[k] == last;
                assert(done[k] == last);
            }
        }
    }
}

/// A node is ready exactly if it has not run and no edge into it is pending.
proof fn lemma_ready_iff_nothing_pending(edges: Seq<Seq<usize>>, done: Seq<usize>, v: usize)
    requires
        edges.len() <= usize::MAX,
        v < edges.len(),
    ensures
        is_ready(edges, done, v) <==> !done.contains(v) && pending_from(
            edges,
            done,
            v,
            edges.len(),
        ) == 0,
{
    lemma_pending_zero(edges, done, v, edges.len());
}

/// Counts of edges fit in 128 bits: there are no more nodes than a `usize`
/// counts, and no node has more edges than that.
proof fn lemma_count_fits(u: int, k: int)
    requires
        0 <= u < usize::MAX,
        0 <= k <= usize::MAX,
    ensures
        u * usize::MAX + k <= (u + 1) * usize::MAX,
        (u + 1) * usize::MAX < u128::MAX,
{
    let m = usize::MAX as int;
    assert(m <= 0xffff_ffff_ffff_ffff);
    assert(u * m + k <= (u + 1) * m) by (nonlinear_arith)
        requires
            k <= m,
    ;
    assert((u + 1) * m <= 0xffff_ffff_ffff_ffff * 0xffff_ffff_ffff_ffff) by (nonlinear_arith)
        requires
            0 <= u + 1 <= 0xffff_ffff_ffff_ffff,
            0 <= m <= 0xffff_ffff_ffff_ffff,
    ;
}

/// For each node, the number of edges into it. An edge that stands twice in
/// a row counts twice; the counts are kept in 128 bits, which they cannot
/// outgrow.
fn count_incoming(edges: &[Vec<usize>]) -> (indegree: Vec<u128>)
    requires
        edges_well_formed(edge_rows(edges@), edges@.len()),
    ensures
        indegree.len() == edges.len(),
        forall|v: usize|
            v < edges.len() ==> indegree@[v as int] == pending_from(
                edge_rows(edges@),
                Seq::empty(),
                v,
                edges@.len(),
            ),
{
    let n = edges.len();
    let ghost rows = edge_rows(edges@);
    let ghost nothing = Seq::<usize>::empty();
    let mut indegree: Vec<u128> = Vec::new();
    let mut i: usize = 0;
    while i < n
        invariant
            i <= n,
            indegree.len() == i,
            forall|v: int| 0 <= v < i ==> indegree@[v] == 0,
        decreases n - i,
    {
        indegree.push(0);
        i += 1;
    }
    let mut u: usize = 0;
    while u < n
        invariant
            n == edges.len(),
            rows == edge_rows(edges@),
            edges_well_formed(rows, n as nat),
            u <= n,
            nothing.len() == 0,
            indegree.len() == n,
            forall|v: usize| v < n ==> indegree@[v as int] == pending_from(rows, nothing, v, u as nat),
            forall|v: usize| v < n ==> indegree@[v as int] <= u * usize::MAX,
        decreases n - u,
    {
        let row = &edges[u];
        assert(row@ == rows[u as int]);
        let mut k: usize = 0;
        assert(row@.take(0) =~= Seq::empty());
        while k < row.len()
            invariant
                n == edges.len(),
                rows == edge_rows(edges@),
                edges_well_formed(rows, n as nat),
                u < n,
                row@ == rows[u as int],
                k <= row.len(),
                nothing.len() == 0,
                indegree.len() == n,
                forall|v: usize|
                    v < n ==> indegree@[v as int] == pending_from(rows, nothing, v, u as nat)
                        + occurrences(row@.take(k as int), v),
                forall|v: usize| v < n ==> indegree@[v as int] <= u * usize::MAX + k,
            decreases row.len() - k,
        {
            let to = row[k];
            assert(to == rows[u as int][k as int]);
            proof {
                assert forall|v: usize| v < n implies occurrences(row@.take(k + 1), v)
                    == occurrences(row@.take(k as int), v) + if row@[k as int] == v {
                    1nat
                } else {
                    0nat
                } by {
                    lemma_occurrences_step(row@, k as int, v);
                }
                lemma_count_fits(u as int, k as int);
                assert(!nothing.contains(u));
            }
            let count = indegree[to];
            indegree.set(to, count + 1);
            k += 1;
        }
        proof {
            assert(row@.take(k as int) =~= row@);
            assert(!nothing.contains(u));
            lemma_count_fits(u as int, k as int);
        }
        u += 1;
    }
    indegree
}

/// The nodes that no edge leads into, in ascending order.
fn initially_ready(indegree: &Vec<u128>) -> (ready: Vec<usize>)
    ensures
        ready@.no_duplicates(),
        forall|v: usize| ready@.contains(v) <==> v < indegree.len() && indegree@[v as int] == 0,
{
    let mut ready: Vec<usize> = Vec::new();
    let mut i: usize = 0;
    while i < indegree.len()
        invariant
            i <= indegree.len(),
            ready@.no_duplicates(),
            forall|v: usize| ready@.contains(v) <==> v < i && indegree@[v as int] == 0,
        decreases indegree.len() - i,
    {
        if indegree[i] == 0 {
            let ghost before = ready@;
            ready.push(i);
            assert(ready@[before.len() as int] == i);
            assert forall|v: usize| ready@.contains(v) implies v < i + 1 && indegree@[v as int]
                == 0 by {
                let k = choose|k: int| 0 <= k < ready@.len() && ready@[k] == v;
                if k < before.len() {
                    assert(before[k] == v);
                    assert(before.contains(v));
                }
            }
            assert forall|v: usize| v < i + 1 && indegree@[v as int] == 0 implies ready@.contains(
                v,
            ) by {
                if v < i {
                    assert(before.contains(v));
                    let k = choose|k: int| 0 <= k < before.len() && before[k] == v;
                    assert(ready@[k] == v);
                }
            }
        }
        i += 1;
    }
    ready
}

/// Takes out of `ready` the node that wins all ties.
fn take_least(ready: &mut Vec<usize>, nodes: &[ExecutionNode]) -> (v: usize)
    requires
        old(ready)@.len() > 0,
        old(ready)@.no_duplicates(),
        forall|k: int| 0 <= k < old(ready)@.len() ==> (#[trigger] old(ready)@[k]) < nodes.len(),
    ensures
        old(ready)@.contains(v),
        forall|w: usize|
            old(ready)@.contains(w) && w != v ==> key_before(ranks(nodes.deep_view()), v, w),
        final(ready)@.no_duplicates(),
        forall|w: usize| final(ready)@.contains(w) <==> old(ready)@.contains(w) && w != v,
{
    let ghost orders = ranks(nodes.deep_view());
    let mut best: usize = 0;
    let mut j: usize = 1;
    while j < ready.len()
        invariant
            ready@ == old(ready)@,
            orders == ranks(nodes.deep_view()),
            ready@.no_duplicates(),
            forall|k: int| 0 <= k < ready@.len() ==> (#[trigger] ready@[k]) < nodes.len(),
            1 <= j <= ready.len(),
            best < j,
            forall|k: int| 0 <= k < j && k != best ==> key_before(orders, ready@[best as int], ready@[k]),
        decreases ready.len() - j,
    {
        let a = ready[j];
        let b = ready[best];
        assert(orders[a as int] == nodes[a as int].order);
        assert(orders[b as int] == nodes[b as int].order);
        assert(a != b);
        if nodes[a].order < nodes[b].order || (nodes[a].order == nodes[b].order && a < b) {
            best = j;
        }
        j += 1;
    }
    let ghost before = ready@;
    let v = ready.remove(best);
    proof {
        assert forall|w: usize| ready@.contains(w) <==> before.contains(w) && w != v by {
            if ready@.contains(w) {
                let k = choose|k: int| 0 <= k < ready@.len() && ready@[k] == w;
                if k < best {
                    assert(before[k] == w);
                } else {
                    assert(before[k + 1] == w);
                }
            }
            if before.contains(w) && w != v {
                let k = choose|k: int| 0 <= k < before.len() && before[k] == w;
                if k < best {
                    assert(ready@[k] == w);
                } else {
                    assert(ready@[k - 1] == w);
                }
            }
        }
        assert forall|w: usize| before.contains(w) && w != v implies key_before(orders, v, w) by {
            let k = choose|k: int| 0 <= k < before.len() && before[k] == w;
            assert(k != best);
        }
    }
    v
}

/// The descriptions of the nodes before `m` that are missing from `order`,
/// by ascending index.
pub open spec fn stuck_texts(nodes: Seq<NodeView>, order: Seq<usize>, m: nat) -> Seq<Seq<char>>
    decreases m,
{
    if m == 0 {
        Seq::empty()
    } else {
        let rest = stuck_texts(nodes, order, (m - 1) as nat);
        if order.contains((m - 1) as usize) {
            rest
        } else {
            rest.push(nodes[m - 1].step.text())
        }
    }
}

/// The steps of the nodes in the order given.
pub open spec fn steps_in_order(nodes: Seq<NodeView>, order: Seq<usize>) -> Seq<StepView> {
    order.map_values(|i: usize| nodes[i as int].step)
}

/// The error for a graph whose order leaves nodes out.
pub open spec fn cycle_error(nodes: Seq<NodeView>, order: Seq<usize>) -> ErrorView {
    ErrorView::SchedulerCycle {
        message: "Dependency cycle in execution plan - this is a bug in jj-ryu, please report it"@,
        cycle_nodes: stuck_texts(nodes, order, nodes.len()),
    }
}

/// What the sort yields for `nodes` and `edges`: the steps in run order, or
/// the cycle error if the order leaves a node out.
pub open spec fn sorted_steps(nodes: Seq<NodeView>, edges: Seq<Seq<usize>>) -> Result<
    Seq<StepView>,
    ErrorView,
> {
    let order = schedule_order(ranks(nodes), edges);
    if order.len() == nodes.len() {
        Ok(steps_in_order(nodes, order))
    } else {
        Err(cycle_error(nodes, order))
    }
}

/// Orders the nodes so that each runs after all the nodes that have to run
/// before it; of several nodes that could run, the one of lowest rank, and of
/// several of one rank the one of lowest index, runs first. Where the edges
/// form a cycle no such order exists, and the error lists every node that
/// could not be placed.
pub fn topo_sort_steps(nodes: &[ExecutionNode], edges: &[Vec<usize>]) -> (r: Result<
    Vec<ExecutionStep>,
    Error,
>)
    requires
        edges_well_formed(edge_rows(edges@), nodes@.len()),
    ensures
        match r {
            Ok(steps) => sorted_steps(nodes.deep_view(), edge_rows(edges@)) == Ok::<
                Seq<StepView>,
                ErrorView,
            >(steps.deep_view()),
            Err(error) => sorted_steps(nodes.deep_view(), edge_rows(edges@)) == Err::<
                Seq<StepView>,
                ErrorView,
            >(error@),
        },
{
    let n = nodes.len();
    let ghost rows = edge_rows(edges@);
    let ghost orders = ranks(nodes.deep_view());
    let mut indegree = count_incoming(edges);
    let mut ready = initially_ready(&indegree);
    let mut sorted: Vec<usize> = Vec::new();
    while ready.len() > 0
        invariant
            n == nodes.len(),
            n == edges.len(),
            rows == edge_rows(edges@),
            orders == ranks(nodes.deep_view()),
            edges_well_formed(rows, n as nat),
            respects_edges(rows, sorted@),
            indegree.len() == n,
            forall|v: usize| v < n ==> indegree@[v as int] == pending_from(rows, sorted@, v, n as nat),
            ready@.no_duplicates(),
            forall|v: usize|
                ready@.contains(v) <==> v < n && !sorted@.contains(v) && indegree@[v as int] == 0,
            run_order(orders, rows, sorted@) == schedule_order(orders, rows),
        decreases n - sorted.len(),
    {
        let ghost done = sorted@;
        let ghost ready_before = ready@;
        assert forall|k: int| 0 <= k < ready@.len() implies (#[trigger] ready@[k]) < nodes.len() by {
            assert(ready@.contains(ready@[k]));
        }
        let v = take_least(&mut ready, nodes);
        proof {
            assert(ready_before.contains(v));
            lemma_room_left(done, n as nat, v);
            assert forall|w: usize| is_ready(rows, done, w) <==> ready_before.contains(w) by {
                if w < n {
                    lemma_ready_iff_nothing_pending(rows, done, w);
                }
            }
            assert(is_next(orders, rows, done, v));
            let c = choose|c: usize| is_next(orders, rows, done, c);
            lemma_next_unique(orders, rows, done, v, c);
            assert(run_order(orders, rows, done) == run_order(orders, rows, done.push(v)));
        }
        sorted.push(v);
        proof {
            lemma_ready_node_extends(rows, done, v);
        }
        let row = &edges[v];
        assert(row@ == rows[v as int]);
        let mut k: usize = 0;
        proof {
            assert(row@.take(0) =~= Seq::empty());
            assert forall|w: usize|
                ready@.contains(w) <==> w < n && !sorted@.contains(w) && indegree@[w as int]
                    == 0 by {
                if sorted@.contains(w) && w != v {
                    let p = choose|p: int| 0 <= p < sorted@.len() && sorted@[p] == w;
                    assert(done[p] == w);
                }
                if done.contains(w) {
                    let p = choose|p: int| 0 <= p < done.len() && done[p] == w;
                    assert(sorted@[p] == w);
                }
                assert(sorted@[done.len() as int] == v);
            }
        }
        while k < row.len()
            invariant
                n == nodes.len(),
                n == edges.len(),
                rows == edge_rows(edges@),
                edges_well_formed(rows, n as nat),
                v < n,
                row@ == rows[v as int],
                k <= row.len(),
                sorted@ == done.push(v),
                !done.contains(v),
                respects_edges(rows, sorted@),
                is_ready(rows, done, v),
                indegree.len() == n,
                forall|w: usize|
                    w < n ==> indegree@[w as int] + occurrences(row@.take(k as int), w)
                        == pending_from(rows, done, w, n as nat),
                ready@.no_duplicates(),
                forall|w: usize|
                    ready@.contains(w) <==> w < n && !sorted@.contains(w) && indegree@[w as int]
                        == 0,
            decreases row.len() - k,
        {
            let to = row[k];
            assert(to == rows[v as int][k as int]);
            assert(has_edge(rows, v, to));
            proof {
                assert forall|w: usize| w < n implies occurrences(row@.take(k + 1), w)
                    == occurrences(row@.take(k as int), w) + if row@[k as int] == w {
                    1nat
                } else {
                    0nat
                } by {
                    lemma_occurrences_step(row@, k as int, w);
                }
                lemma_occurrences_step(row@, k as int, to);
                lemma_pending_after_run(rows, done, v, to, n as nat);
                // `to` has not run: it is neither `v` nor an earlier node.
                if to == v {
                    assert(has_edge(rows, v, v));
                    assert(done.contains(v));
                }
                if sorted@.contains(to) {
                    let q = choose|q: int| 0 <= q < sorted@.len() && sorted@[q] == to;
                    assert(has_edge(rows, v, sorted@[q]));
                    let p = choose|p: int| 0 <= p < q && sorted@[p] == v;
                    assert(done[p] == v);
                }
            }
            let count = indegree[to];
            indegree.set(to, count - 1);
            if count - 1 == 0 {
                let ghost before = ready@;
                ready.push(to);
                proof {
                    assert(!before.contains(to));
                    assert forall|w: usize|
                        ready@.contains(w) <==> w < n && !sorted@.contains(w) && indegree@[w as int]
                            == 0 by {
                        if ready@.contains(w) {
                            let i = choose|i: int| 0 <= i < ready@.len() && ready@[i] == w;
                            if i < before.len() {
                                assert(before[i] == w);
                            }
                        }
                        if before.contains(w) {
                            let i = choose|i: int| 0 <= i < before.len() && before[i] == w;
                            assert(ready@[i] == w);
                        }
                        assert(ready@[before.len() as int] == to);
                    }
                }
            }
            k += 1;
        }
        proof {
            assert(row@.take(k as int) =~= row@);
            assert forall|w: usize| w < n implies indegree@[w as int] == pending_from(
                rows,
                sorted@,
                w,
                n as nat,
            ) by {
                lemma_pending_after_run(rows, done, v, w, n as nat);
            }
        }
    }
    proof {
        assert forall|w: usize| !is_ready(rows, sorted@, w) by {
            if w < n {
                lemma_ready_iff_nothing_pending(rows, sorted@, w);
                assert(!ready@.contains(w));
            }
        }
        assert(run_order(orders, rows, sorted@) == sorted@);
    }
    if sorted.len() != n {
        let mut stuck: Vec<String> = Vec::new();
        let mut i: usize = 0;
        assert(stuck.deep_view() =~= stuck_texts(nodes.deep_view(), sorted@, 0));
        while i < n
            invariant
                n == nodes.len(),
                rows == edge_rows(edges@),
                edges_well_formed(rows, n as nat),
                respects_edges(rows, sorted@),
                i <= n,
                indegree.len() == n,
                forall|v: usize|
                    v < n ==> indegree@[v as int] == pending_from(rows, sorted@, v, n as nat),
                forall|w: usize| !is_ready(rows, sorted@, w),
                stuck.deep_view() == stuck_texts(nodes.deep_view(), sorted@, i as nat),
            decreases n - i,
        {
            proof {
                lemma_ready_iff_nothing_pending(rows, sorted@, i);
                if sorted@.contains(i) {
                    let q = choose|q: int| 0 <= q < sorted@.len() && sorted@[q] == i;
                    lemma_pending_zero(rows, sorted@, i, n as nat);
                    assert forall|u: usize| u < n && #[trigger] has_edge(rows, u, i) implies sorted@.contains(
                        u,
                    ) by {
                        assert(has_edge(rows, u, sorted@[q]));
                        let p = choose|p: int| 0 <= p < q && sorted@[p] == u;
                    }
                }
            }
            if indegree[i] > 0 {
                let ghost before = stuck.deep_view();
                stuck.push(nodes[i].step.description());
                assert(stuck.deep_view() =~= before.push(nodes.deep_view()[i as int].step.text()));
            }
            i += 1;
        }
        return Err(
            Error::SchedulerCycle {
                message: String::from_str(
                    "Dependency cycle in execution plan - this is a bug in jj-ryu, please report it",
                ),
                cycle_nodes: stuck,
            },
        );
    }
    let mut steps: Vec<ExecutionStep> = Vec::new();
    let mut i: usize = 0;
    while i < n
        invariant
            n == nodes.len(),
            sorted.len() == n,
            forall|q: int| 0 <= q < n ==> (#[trigger] sorted@[q]) < n,
            i <= n,
            steps.len() == i,
            forall|q: int| 0 <= q < i ==> steps@[q]@ == nodes@[sorted@[q] as int]@.step,
        decreases n - i,
    {
        steps.push(nodes[sorted[i]].step.clone());
        i += 1;
    }
    assert(steps.deep_view() =~= steps_in_order(nodes.deep_view(), sorted@));
    Ok(steps)
}

} // verus!
