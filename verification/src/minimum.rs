//! Why the tree of the search is a cheapest one: where every passage has its
//! return at the same cost, no choice of edges that joins all cells costs
//! less than the tree that lazy Prim builds.

use crate::graph::Edge;
use crate::heap_order::swapped;
use crate::prim::{
    cost_of, crosses, grows_at, in_tree, is_edge_of, is_spanning_tree, is_tree_from,
    lemma_spanning_tree, spanning_tree, total_cost,
};
use vstd::prelude::*;

verus! {

/// Every passage leads to a cell of the graph, and that cell has a passage
/// back.
pub open spec fn mutual(adj: Seq<Seq<usize>>) -> bool {
    forall|u: int, j: int|
        0 <= u < adj.len() && 0 <= j < adj[u].len() ==> {
            let v = #[trigger] adj[u][j] as int;
            v < adj.len() && exists|k: int| 0 <= k < adj[v].len() && #[trigger] adj[v][k] == u
        }
}

/// Passage number `k` of cell `v` is a return of passage number `j` of cell
/// `u`: the one leads from `u` to `v`, the other from `v` to `u`.
pub open spec fn leads_back(adj: Seq<Seq<usize>>, u: int, j: int, v: int, k: int) -> bool {
    &&& 0 <= u < adj.len()
    &&& 0 <= j < adj[u].len()
    &&& 0 <= v < adj.len()
    &&& 0 <= k < adj[v].len()
    &&& adj[u][j] == v
    &&& adj[v][k] == u
}

/// A passage and its return cost the same.
pub open spec fn even(adj: Seq<Seq<usize>>, costs: Seq<Seq<u8>>) -> bool {
    forall|u: int, j: int, v: int, k: int| #[trigger]
        leads_back(adj, u, j, v, k) ==> cost_of(costs, u, j) == cost_of(costs, v, k)
}

/// No edge has one end inside the set and the other outside.
pub open spec fn undivided(edges: Seq<Edge>, cells: Set<int>) -> bool {
    forall|i: int|
        0 <= i < edges.len() ==> (cells.contains((#[trigger] edges[i]).origin as int)
            <==> cells.contains(edges[i].destination as int))
}

/// Every one of the first `n` cells is in the set.
pub open spec fn holds_all(cells: Set<int>, n: nat) -> bool {
    forall|v: int| 0 <= v < n ==> cells.contains(v)
}

/// The edges, taken in either direction, join every one of the first `n`
/// cells to `start`: a set of cells that holds `start` and that no edge
/// leaves holds them all. That is to say that a walk along the edges leads
/// from `start` to each of them, as `lemma_joins_all_by_walks` shows.
pub open spec fn joins_all(edges: Seq<Edge>, n: nat, start: int) -> bool {
    forall|cells: Set<int>|
        cells.contains(start) && #[trigger] undivided(edges, cells) ==> holds_all(cells, n)
}

/// Some edge joins the two cells, in one direction or the other.
pub open spec fn is_link(edges: Seq<Edge>, a: int, b: int) -> bool {
    exists|i: int|
        0 <= i < edges.len() && ((#[trigger] edges[i]).origin == a && edges[i].destination == b
            || edges[i].origin == b && edges[i].destination == a)
}

/// A walk along the edges, each taken in either direction.
pub open spec fn is_walk(edges: Seq<Edge>, walk: Seq<int>) -> bool {
    &&& walk.len() > 0
    &&& forall|k: int| 0 <= k < walk.len() - 1 ==> is_link(edges, #[trigger] walk[k], walk[k + 1])
}

/// Some walk along the edges leads from `from` to `to`.
pub open spec fn linked(edges: Seq<Edge>, from: int, to: int) -> bool {
    exists|walk: Seq<int>| #[trigger] is_walk(edges, walk) && walk.first() == from && walk.last() == to
}

/// The edges join all of the first `n` cells to `start` exactly if a walk
/// along the edges leads from `start` to each of them.
pub proof fn lemma_joins_all_by_walks(edges: Seq<Edge>, n: nat, start: int)
    ensures
        joins_all(edges, n, start) <==> forall|v: int| 0 <= v < n ==> #[trigger] linked(edges, start, v),
{
    if joins_all(edges, n, start) {
        let near = Set::new(|v: int| linked(edges, start, v));
        let alone = seq![start];
        assert(is_walk(edges, alone) && alone.first() == start && alone.last() == start);
        assert forall|i: int| 0 <= i < edges.len() implies (near.contains(
            (#[trigger] edges[i]).origin as int,
        ) <==> near.contains(edges[i].destination as int)) by {
            let a = edges[i].origin as int;
            let b = edges[i].destination as int;
            if linked(edges, start, a) {
                lemma_walk_further(edges, start, a, b);
            }
            if linked(edges, start, b) {
                lemma_walk_further(edges, start, b, a);
            }
        }
        assert(undivided(edges, near));
        assert(holds_all(near, n));
        assert forall|v: int| 0 <= v < n implies #[trigger] linked(edges, start, v) by {
            assert(near.contains(v));
        }
    }
    if forall|v: int| 0 <= v < n ==> #[trigger] linked(edges, start, v) {
        assert forall|cells: Set<int>|
            cells.contains(start) && #[trigger] undivided(edges, cells) implies holds_all(
            cells,
            n,
        ) by {
            assert forall|v: int| 0 <= v < n implies cells.contains(v) by {
                assert(linked(edges, start, v));
                let walk = choose|walk: Seq<int>| #[trigger]
                    is_walk(edges, walk) && walk.first() == start && walk.last() == v;
                lemma_walk_stays(edges, cells, walk);
            }
        }
    }
}

/// A walk can be carried on along one more edge.
proof fn lemma_walk_further(edges: Seq<Edge>, from: int, a: int, b: int)
    requires
        linked(edges, from, a),
        is_link(edges, a, b),
    ensures
        linked(edges, from, b),
{
    let walk = choose|walk: Seq<int>| #[trigger]
        is_walk(edges, walk) && walk.first() == from && walk.last() == a;
    let longer = walk.push(b);
    assert forall|k: int| 0 <= k < longer.len() - 1 implies is_link(
        edges,
        #[trigger] longer[k],
        longer[k + 1],
    ) by {
        if k < walk.len() - 1 {
            assert(is_link(edges, walk[k], walk[k + 1]));
        }
    }
    assert(is_walk(edges, longer) && longer.first() == from && longer.last() == b);
}

/// A walk that begins in a set which no edge leaves ends in it.
proof fn lemma_walk_stays(edges: Seq<Edge>, cells: Set<int>, walk: Seq<int>)
    requires
        is_walk(edges, walk),
        undivided(edges, cells),
        cells.contains(walk.first()),
    ensures
        cells.contains(walk.last()),
    decreases walk.len(),
{
    if walk.len() > 1 {
        let shorter = walk.drop_last();
        assert forall|k: int| 0 <= k < shorter.len() - 1 implies is_link(
            edges,
            #[trigger] shorter[k],
            shorter[k + 1],
        ) by {
            assert(is_link(edges, walk[k], walk[k + 1]));
        }
        lemma_walk_stays(edges, cells, shorter);
        let a = walk[walk.len() - 2];
        assert(is_link(edges, a, walk[walk.len() - 2 + 1]));
    }
}

/// The edges are edges of the graph, one less than there are cells, and they
/// join every cell to `start`.
pub open spec fn spans(adj: Seq<Seq<usize>>, costs: Seq<Seq<u8>>, start: int, edges: Seq<Edge>) -> bool {
    &&& edges.len() + 1 == adj.len()
    &&& forall|i: int| 0 <= i < edges.len() ==> is_edge_of(adj, costs, #[trigger] edges[i])
    &&& joins_all(edges, adj.len(), start)
}

/// No choice of edges that spans the graph costs less than `total`.
pub open spec fn is_cheapest(
    adj: Seq<Seq<usize>>,
    costs: Seq<Seq<u8>>,
    start: int,
    total: nat,
) -> bool {
    forall|other: Seq<Edge>| #[trigger] spans(adj, costs, start, other) ==> total <= total_cost(other)
}

/// Putting another edge in place of one changes the total by the difference
/// of the two.
pub proof fn lemma_total_cost_update(edges: Seq<Edge>, i: int, e: Edge)
    requires
        0 <= i < edges.len(),
    ensures
        total_cost(edges.update(i, e)) + edges[i].cost == total_cost(edges) + e.cost,
    decreases edges.len(),
{
    let changed = edges.update(i, e);
    if i == edges.len() - 1 {
        assert(changed.drop_last() =~= edges.drop_last());
    } else {
        assert(changed.drop_last() =~= edges.drop_last().update(i, e));
        lemma_total_cost_update(edges.drop_last(), i, e);
    }
}

/// Exchanging two edges leaves the total as it is.
pub proof fn lemma_total_cost_swapped(edges: Seq<Edge>, i: int, j: int)
    requires
        0 <= i < edges.len(),
        0 <= j < edges.len(),
    ensures
        total_cost(swapped(edges, i, j)) == total_cost(edges),
{
    lemma_total_cost_update(edges, i, edges[j]);
    lemma_total_cost_update(edges.update(i, edges[j]), j, edges[i]);
}

/// A set that holds `start` and that none of the first `k` tree edges leaves
/// holds every cell that those edges reach.
proof fn lemma_tree_stays_inside(
    adj: Seq<Seq<usize>>,
    costs: Seq<Seq<u8>>,
    start: int,
    tree: Seq<Edge>,
    k: int,
    cells: Set<int>,
    v: int,
)
    requires
        is_tree_from(adj, costs, start, tree),
        0 <= k <= tree.len(),
        cells.contains(start),
        forall|i: int|
            0 <= i < k ==> (cells.contains((#[trigger] tree[i]).origin as int) ==> cells.contains(
                tree[i].destination as int,
            )),
        in_tree(tree.take(k), start, v),
    ensures
        cells.contains(v),
    decreases k,
{
    if v != start {
        let i = choose|i: int| 0 <= i < tree.take(k).len() && #[trigger] tree.take(k)[i].destination == v;
        assert(tree.take(k)[i] == tree[i]);
        assert(grows_at(adj, costs, start, tree, i));
        lemma_tree_stays_inside(adj, costs, start, tree, i, cells, tree[i].origin as int);
    }
}

/// A cell that some of the first `i` tree edges reach is reached by the
/// first `k` as well, for `i <= k`.
proof fn lemma_in_tree_grows(tree: Seq<Edge>, start: int, i: int, k: int, v: int)
    requires
        0 <= i <= k <= tree.len(),
        in_tree(tree.take(i), start, v),
    ensures
        in_tree(tree.take(k), start, v),
{
    if v != start {
        let j = choose|j: int| 0 <= j < tree.take(i).len() && #[trigger] tree.take(i)[j].destination == v;
        assert(tree.take(k)[j].destination == v);
    }
}

/// No edge that lies wholly outside `inside` has one end in the set and the
/// other not.
pub open spec fn undivided_outside(edges: Seq<Edge>, inside: Set<int>, cells: Set<int>) -> bool {
    forall|i: int|
        0 <= i < edges.len() && !inside.contains((#[trigger] edges[i]).origin as int)
            && !inside.contains(edges[i].destination as int) ==> (cells.contains(
            edges[i].origin as int,
        ) <==> cells.contains(edges[i].destination as int))
}

/// The cells that the edges join to `d` without entering `inside`.
pub open spec fn beyond(edges: Seq<Edge>, inside: Set<int>, d: int) -> Set<int> {
    Set::new(
        |x: int|
            forall|cells: Set<int>|
                cells.contains(d) && #[trigger] undivided_outside(edges, inside, cells)
                    ==> cells.contains(x),
    )
}

/// Edge number `i` has one end in `inside` and the other among the cells
/// that are joined to `d` outside of it.
pub open spec fn bridges(edges: Seq<Edge>, inside: Set<int>, d: int, i: int) -> bool {
    &&& 0 <= i < edges.len()
    &&& {
        let far = beyond(edges, inside, d);
        ||| inside.contains(edges[i].origin as int) && far.contains(edges[i].destination as int)
        ||| inside.contains(edges[i].destination as int) && far.contains(edges[i].origin as int)
    }
}

/// Where the edges join all cells to `start`, and `d` lies outside a set
/// that holds `start`, some edge leads from the set to the cells around `d`.
proof fn lemma_bridge(edges: Seq<Edge>, n: nat, start: int, inside: Set<int>, d: int) -> (i: int)
    requires
        joins_all(edges, n, start),
        inside.contains(start),
        0 <= d < n,
        !inside.contains(d),
    ensures
        bridges(edges, inside, d, i),
{
    let far = beyond(edges, inside, d);
    let outside = Set::new(|x: int| !inside.contains(x));
    assert(undivided_outside(edges, inside, outside));
    assert(far.contains(d));
    if !exists|i: int| bridges(edges, inside, d, i) {
        let near = Set::new(|x: int| !far.contains(x));
        assert(!far.contains(start)) by {
            if far.contains(start) {
                assert(outside.contains(start));
            }
        }
        assert forall|i: int| 0 <= i < edges.len() implies (near.contains(
            (#[trigger] edges[i]).origin as int,
        ) <==> near.contains(edges[i].destination as int)) by {
            let o = edges[i].origin as int;
            let t = edges[i].destination as int;
            assert(!bridges(edges, inside, d, i));
            if far.contains(o) {
                assert(outside.contains(o));
                assert(!inside.contains(t));
                assert forall|cells: Set<int>|
                    cells.contains(d) && #[trigger] undivided_outside(
                        edges,
                        inside,
                        cells,
                    ) implies cells.contains(t) by {
                    assert(cells.contains(o));
                }
                assert(far.contains(t));
            }
            if far.contains(t) {
                assert(outside.contains(t));
                assert(!inside.contains(o));
                assert forall|cells: Set<int>|
                    cells.contains(d) && #[trigger] undivided_outside(
                        edges,
                        inside,
                        cells,
                    ) implies cells.contains(o) by {
                    assert(cells.contains(t));
                }
                assert(far.contains(o));
            }
        }
        assert(undivided(edges, near));
        assert(near.contains(d));
        assert(false);
    }
    choose|i: int| bridges(edges, inside, d, i)
}

/// The cells that the first `k` edges of the tree reach.
pub open spec fn reached(tree: Seq<Edge>, start: int, k: int) -> Set<int> {
    Set::new(|v: int| in_tree(tree.take(k), start, v))
}

/// Both ends of each of the first `k` tree edges are among the cells that
/// those edges reach.
proof fn lemma_ends_reached(
    adj: Seq<Seq<usize>>,
    costs: Seq<Seq<u8>>,
    start: int,
    tree: Seq<Edge>,
    k: int,
    m: int,
)
    requires
        is_tree_from(adj, costs, start, tree),
        0 <= m < k <= tree.len(),
    ensures
        reached(tree, start, k).contains(tree[m].origin as int),
        reached(tree, start, k).contains(tree[m].destination as int),
{
    assert(grows_at(adj, costs, start, tree, m));
    lemma_in_tree_grows(tree, start, m, k, tree[m].origin as int);
    assert(tree.take(k)[m].destination == tree[m].destination);
}

/// Where every passage has its return at the same cost, tree edge number `k`
/// costs no more than any edge of the graph with one end among the cells
/// reached before it and the other not.
proof fn lemma_bridge_costs_more(
    adj: Seq<Seq<usize>>,
    costs: Seq<Seq<u8>>,
    start: int,
    tree: Seq<Edge>,
    k: int,
    f: Edge,
)
    requires
        mutual(adj),
        even(adj, costs),
        0 <= start < adj.len(),
        0 <= k < tree.len(),
        grows_at(adj, costs, start, tree, k),
        is_edge_of(adj, costs, f),
        reached(tree, start, k).contains(f.origin as int) != reached(tree, start, k).contains(
            f.destination as int,
        ),
    ensures
        tree[k].cost <= f.cost,
{
    let inside = reached(tree, start, k);
    let o = f.origin as int;
    let j = choose|j: int|
        0 <= j < adj[o].len() && #[trigger] adj[o][j] == f.destination && f.cost == cost_of(
            costs,
            o,
            j,
        );
    let t = adj[o][j] as int;
    assert(t < adj.len());
    if inside.contains(o) {
        assert(crosses(adj, start, tree.take(k), o, j));
    } else {
        let back = choose|back: int| 0 <= back < adj[t].len() && #[trigger] adj[t][back] == o;
        assert(leads_back(adj, o, j, t, back));
        assert(cost_of(costs, o, j) == cost_of(costs, t, back));
        assert(crosses(adj, start, tree.take(k), t, back));
    }
}

/// Putting tree edge number `k` in the place of a bridge, and then in place
/// number `k`, leaves a choice of edges that still joins all cells.
proof fn lemma_exchange_joins(
    adj: Seq<Seq<usize>>,
    costs: Seq<Seq<u8>>,
    start: int,
    tree: Seq<Edge>,
    other: Seq<Edge>,
    k: int,
    i: int,
)
    requires
        is_tree_from(adj, costs, start, tree),
        0 <= k < tree.len(),
        other.len() == tree.len(),
        other.take(k) == tree.take(k),
        joins_all(other, adj.len(), start),
        k <= i,
        bridges(other, reached(tree, start, k), tree[k].destination as int, i),
    ensures
        joins_all(swapped(other.update(i, tree[k]), i, k), adj.len(), start),
{
    let e = tree[k];
    let d = e.destination as int;
    let inside = reached(tree, start, k);
    let f = other[i];
    let next = swapped(other.update(i, e), i, k);
    assert(grows_at(adj, costs, start, tree, k));
    assert(next[k] == e);
    assert forall|cells: Set<int>|
        cells.contains(start) && #[trigger] undivided(next, cells) implies holds_all(
        cells,
        adj.len(),
    ) by {
        assert forall|m: int| 0 <= m < other.len() && m != i implies (cells.contains(
            (#[trigger] other[m]).origin as int,
        ) <==> cells.contains(other[m].destination as int)) by {
            if m == k {
                assert(next[i] == other[k]);
            } else {
                assert(next[m] == other[m]);
            }
        }
        assert forall|m: int|
            0 <= m < k && cells.contains((#[trigger] tree[m]).origin as int) implies cells.contains(
            tree[m].destination as int,
        ) by {
            assert(other.take(k)[m] == other[m]);
            assert(tree.take(k)[m] == tree[m]);
        }
        assert forall|v: int| inside.contains(v) implies cells.contains(v) by {
            lemma_tree_stays_inside(adj, costs, start, tree, k, cells, v);
        }
        assert(inside.contains(e.origin as int));
        assert(cells.contains(e.origin as int));
        assert(cells.contains(next[k].destination as int));
        assert(cells.contains(d));
        assert forall|m: int|
            0 <= m < other.len() && !inside.contains((#[trigger] other[m]).origin as int)
                && !inside.contains(other[m].destination as int) implies (cells.contains(
            other[m].origin as int,
        ) <==> cells.contains(other[m].destination as int)) by {
            assert(m != i);
        }
        assert(undivided_outside(other, inside, cells));
        assert(cells.contains(f.origin as int) && cells.contains(f.destination as int));
        assert(undivided(other, cells));
    }
}

/// Putting tree edge number `k` in the place of edge number `i`, and then
/// in place number `k`, leaves a choice of edges of the graph that begins
/// with one more edge of the tree, and changes the total by the difference
/// of the two edges.
proof fn lemma_exchange_shape(
    adj: Seq<Seq<usize>>,
    costs: Seq<Seq<u8>>,
    tree: Seq<Edge>,
    other: Seq<Edge>,
    k: int,
    i: int,
)
    requires
        0 <= k <= i < tree.len(),
        other.len() == tree.len(),
        other.take(k) == tree.take(k),
        is_edge_of(adj, costs, tree[k]),
        forall|m: int| 0 <= m < other.len() ==> is_edge_of(adj, costs, #[trigger] other[m]),
    ensures
        ({
            let next = swapped(other.update(i, tree[k]), i, k);
            &&& next.len() == other.len()
            &&& next.take(k + 1) == tree.take(k + 1)
            &&& forall|m: int| 0 <= m < next.len() ==> is_edge_of(adj, costs, #[trigger] next[m])
            &&& total_cost(next) + other[i].cost == total_cost(other) + tree[k].cost
        }),
{
    let e = tree[k];
    let changed = other.update(i, e);
    let next = swapped(changed, i, k);
    lemma_total_cost_update(other, i, e);
    lemma_total_cost_swapped(changed, i, k);
    assert forall|m: int| 0 <= m < k + 1 implies next[m] == tree[m] by {
        if m < k {
            assert(other.take(k)[m] == other[m]);
            assert(tree.take(k)[m] == tree[m]);
            assert(other[m] == tree[m]);
            assert(changed[m] == other[m]);
            assert(next[m] == changed[m]);
        } else {
            assert(changed[i] == e);
            assert(next[k] == changed[i]);
        }
    }
    assert(next.take(k + 1) =~= tree.take(k + 1));
    assert forall|m: int| 0 <= m < next.len() implies is_edge_of(
        adj,
        costs,
        #[trigger] next[m],
    ) by {
        if m == k {
        } else if m == i {
            assert(is_edge_of(adj, costs, other[k]));
        } else {
            assert(is_edge_of(adj, costs, other[m]));
        }
    }
}

/// A bridge out of the cells that the first `k` tree edges reach is none of
/// those edges, where the choice of edges begins with them, and it has
/// exactly one end among those cells.
proof fn lemma_bridge_is_later(
    adj: Seq<Seq<usize>>,
    costs: Seq<Seq<u8>>,
    start: int,
    tree: Seq<Edge>,
    other: Seq<Edge>,
    k: int,
    i: int,
)
    requires
        is_tree_from(adj, costs, start, tree),
        0 <= k < tree.len(),
        other.len() == tree.len(),
        other.take(k) == tree.take(k),
        bridges(other, reached(tree, start, k), tree[k].destination as int, i),
    ensures
        k <= i,
        reached(tree, start, k).contains(other[i].origin as int) != reached(
            tree,
            start,
            k,
        ).contains(other[i].destination as int),
{
    let inside = reached(tree, start, k);
    let d = tree[k].destination as int;
    let f = other[i];
    let outside = Set::new(|x: int| !inside.contains(x));
    assert(grows_at(adj, costs, start, tree, k));
    assert(outside.contains(d));
    assert(undivided_outside(other, inside, outside));
    if beyond(other, inside, d).contains(f.origin as int) {
        assert(outside.contains(f.origin as int));
    }
    if beyond(other, inside, d).contains(f.destination as int) {
        assert(outside.contains(f.destination as int));
    }
    if i < k {
        assert(other.take(k)[i] == other[i]);
        assert(tree.take(k)[i] == tree[i]);
        lemma_ends_reached(adj, costs, start, tree, k, i);
    }
}

/// Where every passage has its return at the same cost, a spanning choice of
/// edges that begins with the first `k` edges of the tree costs at least as
/// much as the whole tree.
proof fn lemma_no_cheaper_from(
    adj: Seq<Seq<usize>>,
    costs: Seq<Seq<u8>>,
    start: int,
    tree: Seq<Edge>,
    other: Seq<Edge>,
    k: int,
)
    requires
        0 <= start < adj.len(),
        mutual(adj),
        even(adj, costs),
        tree.len() + 1 == adj.len(),
        is_tree_from(adj, costs, start, tree),
        spans(adj, costs, start, other),
        0 <= k <= tree.len(),
        other.take(k) == tree.take(k),
    ensures
        total_cost(tree) <= total_cost(other),
    decreases tree.len() - k,
{
    if k == tree.len() {
        assert(other.take(k) =~= other);
        assert(tree.take(k) =~= tree);
    } else {
        let inside = reached(tree, start, k);
        let d = tree[k].destination as int;
        assert(grows_at(adj, costs, start, tree, k));
        assert(inside.contains(start));
        assert(!inside.contains(d));
        let i = lemma_bridge(other, adj.len(), start, inside, d);
        lemma_bridge_is_later(adj, costs, start, tree, other, k, i);
        lemma_bridge_costs_more(adj, costs, start, tree, k, other[i]);
        lemma_exchange_shape(adj, costs, tree, other, k, i);
        lemma_exchange_joins(adj, costs, start, tree, other, k, i);
        let next = swapped(other.update(i, tree[k]), i, k);
        lemma_no_cheaper_from(adj, costs, start, tree, next, k + 1);
    }
}

/// A spanning tree that grows from `start` joins every cell to `start`.
pub proof fn lemma_tree_spans(
    adj: Seq<Seq<usize>>,
    costs: Seq<Seq<u8>>,
    start: int,
    tree: Seq<Edge>,
)
    requires
        is_spanning_tree(adj, costs, start, tree),
    ensures
        spans(adj, costs, start, tree),
{
    assert forall|i: int| 0 <= i < tree.len() implies is_edge_of(adj, costs, #[trigger] tree[i]) by {
        assert(grows_at(adj, costs, start, tree, i));
    }
    assert forall|cells: Set<int>|
        cells.contains(start) && #[trigger] undivided(tree, cells) implies holds_all(
        cells,
        adj.len(),
    ) by {
        assert forall|v: int| 0 <= v < adj.len() implies cells.contains(v) by {
            assert(in_tree(tree, start, v));
            assert(tree.take(tree.len() as int) =~= tree);
            lemma_tree_stays_inside(adj, costs, start, tree, tree.len() as int, cells, v);
        }
    }
}

/// Where every passage has its return at the same cost, the tree of the
/// search is a cheapest one: no choice of edges of the graph, one less than
/// there are cells, that joins all cells costs less.
pub proof fn lemma_tree_is_cheapest(
    adj: Seq<Seq<usize>>,
    costs: Seq<Seq<u8>>,
    start: int,
    tree: Seq<Edge>,
    other: Seq<Edge>,
)
    requires
        0 <= start < adj.len(),
        mutual(adj),
        even(adj, costs),
        is_spanning_tree(adj, costs, start, tree),
        spans(adj, costs, start, other),
    ensures
        total_cost(tree) <= total_cost(other),
{
    assert(other.take(0) =~= tree.take(0));
    lemma_no_cheaper_from(adj, costs, start, tree, other, 0);
}

/// Where every passage has its return at the same cost, the tree that the
/// search ends with is a minimum spanning tree: it spans the graph, and
/// nothing that spans the graph costs less.
pub proof fn lemma_minimum_spanning_tree(
    adj: Seq<Seq<usize>>,
    costs: Seq<Seq<u8>>,
    start: int,
    tree: Seq<Edge>,
)
    requires
        0 <= start < adj.len() <= usize::MAX,
        mutual(adj),
        even(adj, costs),
        spanning_tree(adj, costs, start) == Some(tree),
    ensures
        spans(adj, costs, start, tree),
        is_cheapest(adj, costs, start, total_cost(tree)),
{
    lemma_spanning_tree(adj, costs, start);
    lemma_tree_spans(adj, costs, start, tree);
    assert forall|other: Seq<Edge>| #[trigger] spans(adj, costs, start, other) implies total_cost(
        tree,
    ) <= total_cost(other) by {
        lemma_tree_is_cheapest(adj, costs, start, tree, other);
    }
}

} // verus!
