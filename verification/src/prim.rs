//! Lazy Prim as mathematics: the search for a spanning tree as a function on
//! sequences, what it keeps true from step to step, and what follows for the
//! tree it ends with.

use crate::graph::Edge;
use crate::heap_order::{
    inserted, is_min_heap, lemma_inserted, lemma_removed_at, lemma_root_is_least_of_all,
    removed_at,
};
use vstd::prelude::*;

verus! {

/// What the edge from `origin` to its neighbour number `slot` costs. An edge
/// that the table does not list costs nothing.
pub open spec fn cost_of(costs: Seq<Seq<u8>>, origin: int, slot: int) -> u8 {
    if 0 <= origin < costs.len() && 0 <= slot < costs[origin].len() {
        costs[origin][slot]
    } else {
        0
    }
}

/// The edges that leave cell `idx`, one for each neighbour in the order of
/// the adjacency list. A cell outside the graph has none.
pub open spec fn edges_from(adj: Seq<Seq<usize>>, costs: Seq<Seq<u8>>, idx: int) -> Seq<Edge> {
    if 0 <= idx < adj.len() {
        Seq::new(
            adj[idx].len(),
            |j: int| Edge { origin: idx as usize, destination: adj[idx][j], cost: cost_of(costs, idx, j) },
        )
    } else {
        Seq::empty()
    }
}

/// The cell belongs to the graph and the search has not been there.
pub open spec fn unvisited(visited: Seq<bool>, cell: int) -> bool {
    0 <= cell < visited.len() && !visited[cell]
}

/// How many cells the search has not been to.
pub open spec fn count_unvisited(visited: Seq<bool>) -> nat {
    visited.to_multiset().count(false)
}

/// The frontier after the edges have been offered to it in order: each one
/// that leads to an unvisited cell is inserted, the others are passed over.
pub open spec fn with_unvisited(heap: Seq<Edge>, edges: Seq<Edge>, visited: Seq<bool>) -> Seq<Edge>
    decreases edges.len(),
{
    if edges.len() == 0 {
        heap
    } else {
        let before = with_unvisited(heap, edges.drop_last(), visited);
        if unvisited(visited, edges.last().destination as int) {
            inserted(before, edges.last())
        } else {
            before
        }
    }
}

/// A moment of the search: the frontier heap, which cells have been visited,
/// and the tree edges accepted so far, in order.
pub struct Search {
    pub heap: Seq<Edge>,
    pub visited: Seq<bool>,
    pub tree: Seq<Edge>,
}

/// The search after it has come to cell `idx`: the cell is marked, and its
/// edges to cells not yet visited join the frontier.
pub open spec fn visit(adj: Seq<Seq<usize>>, costs: Seq<Seq<u8>>, s: Search, idx: int) -> Search {
    let visited = s.visited.update(idx, true);
    Search {
        heap: with_unvisited(s.heap, edges_from(adj, costs, idx), visited),
        visited,
        tree: s.tree,
    }
}

/// The search as it begins: nothing but the start cell is visited.
pub open spec fn start_state(adj: Seq<Seq<usize>>, costs: Seq<Seq<u8>>, start: int) -> Search {
    visit(
        adj,
        costs,
        Search {
            heap: Seq::empty(),
            visited: Seq::new(adj.len(), |i: int| false),
            tree: Seq::empty(),
        },
        start,
    )
}

/// The search stops when the frontier is empty or the tree has one edge less
/// than the graph has cells.
pub open spec fn finished(adj: Seq<Seq<usize>>, s: Search) -> bool {
    s.heap.len() == 0 || s.tree.len() + 1 == adj.len()
}

/// One step of the search: the cheapest frontier edge leaves the heap. Where
/// it leads to a visited cell it is dropped; else it joins the tree and the
/// search comes to its destination.
pub open spec fn expand(adj: Seq<Seq<usize>>, costs: Seq<Seq<u8>>, s: Search) -> Search {
    let edge = s.heap[0];
    let heap = removed_at(s.heap, 0);
    if unvisited(s.visited, edge.destination as int) {
        visit(
            adj,
            costs,
            Search { heap, visited: s.visited, tree: s.tree.push(edge) },
            edge.destination as int,
        )
    } else {
        Search { heap, visited: s.visited, tree: s.tree }
    }
}

/// Marking an unvisited cell leaves one unvisited cell less.
pub proof fn lemma_mark_visited(visited: Seq<bool>, cell: int)
    requires
        unvisited(visited, cell),
    ensures
        count_unvisited(visited.update(cell, true)) + 1 == count_unvisited(visited),
{
    broadcast use vstd::multiset::group_multiset_axioms;
    vstd::seq_lib::to_multiset_update(visited, cell, true);
    vstd::seq_lib::to_multiset_contains(visited, false);
    assert(visited[cell] == false);
    assert(visited.contains(false));
}

/// A step either visits a cell, or leaves the visited cells alone and
/// shortens the frontier.
pub proof fn lemma_expand_progress(adj: Seq<Seq<usize>>, costs: Seq<Seq<u8>>, s: Search)
    requires
        s.heap.len() > 0,
    ensures
        count_unvisited(expand(adj, costs, s).visited) < count_unvisited(s.visited) || (
        count_unvisited(expand(adj, costs, s).visited) == count_unvisited(s.visited) && expand(
            adj,
            costs,
            s,
        ).heap.len() < s.heap.len()),
{
    let edge = s.heap[0];
    lemma_removed_at(s.heap, 0);
    if unvisited(s.visited, edge.destination as int) {
        lemma_mark_visited(s.visited, edge.destination as int);
    }
}

/// The search carried on from `s` until it stops.
pub open spec fn run(adj: Seq<Seq<usize>>, costs: Seq<Seq<u8>>, s: Search) -> Search
    decreases count_unvisited(s.visited), s.heap.len(),
{
    if finished(adj, s) {
        s
    } else {
        proof {
            lemma_expand_progress(adj, costs, s);
        }
        run(adj, costs, expand(adj, costs, s))
    }
}

/// What the edges cost together.
pub open spec fn total_cost(tree: Seq<Edge>) -> nat
    decreases tree.len(),
{
    if tree.len() == 0 {
        0
    } else {
        total_cost(tree.drop_last()) + tree.last().cost as nat
    }
}

/// The tree that the search from `start` ends with, or `None` where the
/// frontier ran out before the tree had an edge for every other cell.
pub open spec fn spanning_tree(adj: Seq<Seq<usize>>, costs: Seq<Seq<u8>>, start: int) -> Option<
    Seq<Edge>,
> {
    let end = run(adj, costs, start_state(adj, costs, start));
    if end.tree.len() + 1 == adj.len() {
        Some(end.tree)
    } else {
        None
    }
}

/// The adjacency list has `v` among the neighbours of `u`.
pub open spec fn is_passage(adj: Seq<Seq<usize>>, u: int, v: int) -> bool {
    0 <= u < adj.len() && exists|j: int| 0 <= j < adj[u].len() && #[trigger] adj[u][j] == v
}

/// A walk through the graph: at least one cell, and from each cell a passage
/// to the next.
pub open spec fn is_path(adj: Seq<Seq<usize>>, path: Seq<int>) -> bool {
    &&& path.len() > 0
    &&& forall|k: int| 0 <= k < path.len() - 1 ==> is_passage(adj, #[trigger] path[k], path[k + 1])
}

/// Some walk leads from `from` to `to`.
pub open spec fn reachable(adj: Seq<Seq<usize>>, from: int, to: int) -> bool {
    exists|path: Seq<int>| #[trigger] is_path(adj, path) && path.first() == from && path.last() == to
}

/// Every cell of the graph can be reached from `start`.
pub open spec fn connected_from(adj: Seq<Seq<usize>>, start: int) -> bool {
    forall|v: int| 0 <= v < adj.len() ==> #[trigger] reachable(adj, start, v)
}

/// No passage leads out of the set.
pub open spec fn closed_under(adj: Seq<Seq<usize>>, cells: Set<int>) -> bool {
    forall|u: int, j: int|
        0 <= u < adj.len() && 0 <= j < adj[u].len() && cells.contains(u) ==> cells.contains(
            #[trigger] adj[u][j] as int,
        )
}

/// The edge is one of the graph's, at the cost that the table gives it.
pub open spec fn is_edge_of(adj: Seq<Seq<usize>>, costs: Seq<Seq<u8>>, e: Edge) -> bool {
    0 <= e.origin < adj.len() && exists|j: int|
        0 <= j < adj[e.origin as int].len() && #[trigger] adj[e.origin as int][j] == e.destination
            && e.cost == cost_of(costs, e.origin as int, j)
}

/// The cell is the start or the destination of one of the edges.
pub open spec fn in_tree(tree: Seq<Edge>, start: int, v: int) -> bool {
    v == start || exists|k: int| 0 <= k < tree.len() && #[trigger] tree[k].destination == v
}

/// Passage number `slot` of cell `u` leads from a cell that the edges have
/// reached to a cell of the graph that they have not.
pub open spec fn crosses(adj: Seq<Seq<usize>>, start: int, tree: Seq<Edge>, u: int, slot: int) -> bool {
    &&& 0 <= u < adj.len()
    &&& 0 <= slot < adj[u].len()
    &&& in_tree(tree, start, u)
    &&& adj[u][slot] < adj.len()
    &&& !in_tree(tree, start, adj[u][slot] as int)
}

/// Edge number `k` is an edge of the graph that leads from a cell which the
/// edges before it have reached to a cell of the graph which they have not,
/// and no passage that does so is cheaper.
pub open spec fn grows_at(
    adj: Seq<Seq<usize>>,
    costs: Seq<Seq<u8>>,
    start: int,
    tree: Seq<Edge>,
    k: int,
) -> bool {
    &&& is_edge_of(adj, costs, tree[k])
    &&& tree[k].destination < adj.len()
    &&& in_tree(tree.take(k), start, tree[k].origin as int)
    &&& !in_tree(tree.take(k), start, tree[k].destination as int)
    &&& forall|u: int, slot: int| #[trigger]
        crosses(adj, start, tree.take(k), u, slot) ==> tree[k].cost <= cost_of(costs, u, slot)
}

/// The edges form a tree that grows from `start` one edge at a time, each
/// edge a cheapest of those that could be added when it was.
pub open spec fn is_tree_from(
    adj: Seq<Seq<usize>>,
    costs: Seq<Seq<u8>>,
    start: int,
    tree: Seq<Edge>,
) -> bool {
    forall|k: int| 0 <= k < tree.len() ==> #[trigger] grows_at(adj, costs, start, tree, k)
}

/// The edges form a tree grown from `start`, cheapest edge first, that
/// reaches every cell of the graph: one edge less than there are cells, and
/// every cell but the start is the destination of exactly one of them.
pub open spec fn is_spanning_tree(
    adj: Seq<Seq<usize>>,
    costs: Seq<Seq<u8>>,
    start: int,
    tree: Seq<Edge>,
) -> bool {
    &&& tree.len() + 1 == adj.len()
    &&& is_tree_from(adj, costs, start, tree)
    &&& forall|v: int| 0 <= v < adj.len() ==> #[trigger] in_tree(tree, start, v)
}

/// The edge that stands for passage number `slot` of cell `u`.
pub open spec fn passage(adj: Seq<Seq<usize>>, costs: Seq<Seq<u8>>, u: int, slot: int) -> Edge {
    Edge { origin: u as usize, destination: adj[u][slot], cost: cost_of(costs, u, slot) }
}

/// The frontier holds the edge of passage number `slot` of cell `u`, unless
/// the passage leads to a visited cell or out of the graph.
pub open spec fn awaited(
    adj: Seq<Seq<usize>>,
    costs: Seq<Seq<u8>>,
    s: Search,
    u: int,
    slot: int,
) -> bool {
    unvisited(s.visited, adj[u][slot] as int) ==> s.heap.to_multiset().contains(
        passage(adj, costs, u, slot),
    )
}

/// What every moment of a search from `start` has in common.
pub open spec fn search_inv(
    adj: Seq<Seq<usize>>,
    costs: Seq<Seq<u8>>,
    start: int,
    s: Search,
) -> bool {
    &&& 0 <= start < adj.len() <= usize::MAX
    &&& s.visited.len() == adj.len()
    &&& s.tree.len() + 1 + count_unvisited(s.visited) == adj.len()
    &&& is_min_heap(s.heap)
    &&& is_tree_from(adj, costs, start, s.tree)
    &&& forall|v: int| 0 <= v < adj.len() ==> (#[trigger] s.visited[v] <==> in_tree(s.tree, start, v))
    &&& forall|e: Edge| #[trigger]
        s.heap.to_multiset().contains(e) ==> is_edge_of(adj, costs, e) && s.visited[e.origin as int]
    &&& forall|u: int, j: int|
        0 <= u < adj.len() && 0 <= j < adj[u].len() && s.visited[u] ==> #[trigger] awaited(
            adj,
            costs,
            s,
            u,
            j,
        )
}

/// An edge is among those offered and leads to an unvisited cell.
pub open spec fn offered(edges: Seq<Edge>, visited: Seq<bool>, e: Edge) -> bool {
    unvisited(visited, e.destination as int) && exists|i: int|
        0 <= i < edges.len() && #[trigger] edges[i] == e
}

/// After edges have been offered, the frontier holds what it held before and
/// those of the offered edges that lead to an unvisited cell, and it is a
/// heap if it was one.
pub proof fn lemma_with_unvisited(heap: Seq<Edge>, edges: Seq<Edge>, visited: Seq<bool>)
    ensures
        forall|e: Edge| #[trigger]
            with_unvisited(heap, edges, visited).to_multiset().contains(e) <==> (
            heap.to_multiset().contains(e) || offered(edges, visited, e)),
        is_min_heap(heap) ==> is_min_heap(with_unvisited(heap, edges, visited)),
    decreases edges.len(),
{
    broadcast use vstd::multiset::group_multiset_axioms;
    if edges.len() > 0 {
        let front = edges.drop_last();
        let before = with_unvisited(heap, front, visited);
        lemma_with_unvisited(heap, front, visited);
        lemma_inserted(before, edges.last());
        assert forall|e: Edge| #[trigger]
            with_unvisited(heap, edges, visited).to_multiset().contains(e) <==> (
            heap.to_multiset().contains(e) || offered(edges, visited, e)) by {
            if offered(front, visited, e) {
                let i = choose|i: int| 0 <= i < front.len() && #[trigger] front[i] == e;
                assert(edges[i] == e);
            }
            if offered(edges, visited, e) {
                let i = choose|i: int| 0 <= i < edges.len() && #[trigger] edges[i] == e;
                if i < front.len() {
                    assert(front[i] == e);
                }
            }
            if unvisited(visited, edges.last().destination as int) && e == edges.last() {
                assert(edges[edges.len() - 1] == e);
            }
            assert(before.to_multiset().contains(e) <==> (heap.to_multiset().contains(e)
                || offered(front, visited, e)));
        }
    }
}

/// Before the search has been anywhere, every cell is unvisited.
pub proof fn lemma_none_visited(n: nat)
    ensures
        count_unvisited(Seq::new(n, |i: int| false)) == n,
    decreases n,
{
    broadcast use vstd::multiset::group_multiset_axioms;
    let all = Seq::new(n, |i: int| false);
    if n == 0 {
        vstd::seq_lib::to_multiset_len(all);
        assert(all.to_multiset() =~= vstd::multiset::Multiset::<bool>::empty());
    } else {
        let fewer = Seq::new((n - 1) as nat, |i: int| false);
        lemma_none_visited((n - 1) as nat);
        assert(all =~= fewer.push(false));
        vstd::seq_lib::to_multiset_build(fewer, false);
    }
}

/// Where no cell is left unvisited, every cell is visited.
pub proof fn lemma_all_visited(visited: Seq<bool>)
    requires
        count_unvisited(visited) == 0,
    ensures
        forall|v: int| 0 <= v < visited.len() ==> #[trigger] visited[v],
{
    assert forall|v: int| 0 <= v < visited.len() implies #[trigger] visited[v] by {
        if !visited[v] {
            vstd::seq_lib::to_multiset_contains(visited, false);
            assert(visited.contains(false));
        }
    }
}

/// Where a cell is left unvisited, one can be named.
pub proof fn lemma_some_unvisited(visited: Seq<bool>) -> (v: int)
    requires
        count_unvisited(visited) > 0,
    ensures
        unvisited(visited, v),
{
    vstd::seq_lib::to_multiset_contains(visited, false);
    choose|v: int| 0 <= v < visited.len() && visited[v] == false
}

/// Coming to a cell that the tree has reached but the search has not yet
/// marked brings the search to a moment at which all is in order again.
proof fn lemma_visit(
    adj: Seq<Seq<usize>>,
    costs: Seq<Seq<u8>>,
    start: int,
    p: Search,
    idx: int,
)
    requires
        0 <= start < adj.len() <= usize::MAX,
        p.visited.len() == adj.len(),
        unvisited(p.visited, idx),
        p.tree.len() + count_unvisited(p.visited) == adj.len(),
        is_min_heap(p.heap),
        is_tree_from(adj, costs, start, p.tree),
        in_tree(p.tree, start, idx),
        forall|v: int|
            0 <= v < adj.len() && v != idx ==> (#[trigger] p.visited[v] <==> in_tree(
                p.tree,
                start,
                v,
            )),
        forall|e: Edge| #[trigger]
            p.heap.to_multiset().contains(e) ==> is_edge_of(adj, costs, e) && p.visited[e.origin as int],
        forall|u: int, j: int|
            0 <= u < adj.len() && 0 <= j < adj[u].len() && p.visited[u] ==> (#[trigger] awaited(
                adj,
                costs,
                p,
                u,
                j,
            ) || adj[u][j] == idx),
    ensures
        search_inv(adj, costs, start, visit(adj, costs, p, idx)),
{
    let s = visit(adj, costs, p, idx);
    let edges = edges_from(adj, costs, idx);
    lemma_mark_visited(p.visited, idx);
    lemma_with_unvisited(p.heap, edges, s.visited);
    assert forall|e: Edge| #[trigger] s.heap.to_multiset().contains(e) implies is_edge_of(
        adj,
        costs,
        e,
    ) && s.visited[e.origin as int] by {
        if !p.heap.to_multiset().contains(e) {
            let i = choose|i: int| 0 <= i < edges.len() && #[trigger] edges[i] == e;
            assert(adj[idx][i] == e.destination);
        }
    }
    assert forall|u: int, j: int|
        0 <= u < adj.len() && 0 <= j < adj[u].len() && s.visited[u] implies #[trigger] awaited(
        adj,
        costs,
        s,
        u,
        j,
    ) by {
        let d = adj[u][j] as int;
        let e = passage(adj, costs, u, j);
        if unvisited(s.visited, d) {
            if u == idx {
                assert(edges[j] == e);
                assert(offered(edges, s.visited, e));
            } else {
                assert(awaited(adj, costs, p, u, j));
                assert(p.heap.to_multiset().contains(e));
            }
            assert(s.heap.to_multiset().contains(e));
        }
    }
}

/// At its beginning the search is in order.
pub proof fn lemma_start(adj: Seq<Seq<usize>>, costs: Seq<Seq<u8>>, start: int)
    requires
        0 <= start < adj.len() <= usize::MAX,
    ensures
        search_inv(adj, costs, start, start_state(adj, costs, start)),
{
    broadcast use vstd::multiset::group_multiset_axioms;
    let p = Search {
        heap: Seq::empty(),
        visited: Seq::new(adj.len(), |i: int| false),
        tree: Seq::empty(),
    };
    lemma_none_visited(adj.len());
    vstd::seq_lib::to_multiset_len(p.heap);
    assert(p.heap.to_multiset() =~= vstd::multiset::Multiset::<Edge>::empty());
    lemma_visit(adj, costs, start, p, start);
}

/// A step keeps the search in order.
pub proof fn lemma_expand(adj: Seq<Seq<usize>>, costs: Seq<Seq<u8>>, start: int, s: Search)
    requires
        search_inv(adj, costs, start, s),
        !finished(adj, s),
    ensures
        search_inv(adj, costs, start, expand(adj, costs, s)),
{
    broadcast use vstd::multiset::group_multiset_axioms;
    let edge = s.heap[0];
    let heap = removed_at(s.heap, 0);
    lemma_removed_at(s.heap, 0);
    vstd::seq_lib::to_multiset_contains(s.heap, edge);
    assert(s.heap.contains(edge));
    assert(s.heap.to_multiset().contains(edge));
    let idx = edge.destination as int;
    assert forall|e: Edge| #[trigger] heap.to_multiset().contains(e) implies s.heap.to_multiset().contains(
        e,
    ) by {}
    assert forall|e: Edge| #[trigger]
        s.heap.to_multiset().contains(e) && e != edge implies heap.to_multiset().contains(e) by {}
    if unvisited(s.visited, idx) {
        let tree = s.tree.push(edge);
        let p = Search { heap, visited: s.visited, tree };
        lemma_root_is_least_of_all(s.heap);
        assert forall|k: int| 0 <= k < tree.len() implies #[trigger] grows_at(
            adj,
            costs,
            start,
            tree,
            k,
        ) by {
            if k < s.tree.len() {
                assert(grows_at(adj, costs, start, s.tree, k));
                assert(tree.take(k) =~= s.tree.take(k));
            } else {
                assert(tree.take(k) =~= s.tree);
                assert(s.visited[edge.origin as int]);
                assert forall|u: int, slot: int| #[trigger]
                    crosses(adj, start, s.tree, u, slot) implies edge.cost <= cost_of(
                    costs,
                    u,
                    slot,
                ) by {
                    assert(s.visited[u]);
                    assert(awaited(adj, costs, s, u, slot));
                    assert(s.heap.to_multiset().contains(passage(adj, costs, u, slot)));
                }
            }
        }
        assert(tree[s.tree.len() as int].destination == idx);
        assert forall|v: int| 0 <= v < adj.len() && v != idx implies (#[trigger] p.visited[v]
            <==> in_tree(p.tree, start, v)) by {
            if in_tree(s.tree, start, v) && v != start {
                let k = choose|k: int| 0 <= k < s.tree.len() && #[trigger] s.tree[k].destination == v;
                assert(tree[k].destination == v);
            }
            if in_tree(tree, start, v) && v != start {
                let k = choose|k: int| 0 <= k < tree.len() && #[trigger] tree[k].destination == v;
                assert(s.tree[k].destination == v);
            }
        }
        assert forall|u: int, j: int|
            0 <= u < adj.len() && 0 <= j < adj[u].len() && p.visited[u] implies (#[trigger] awaited(
            adj,
            costs,
            p,
            u,
            j,
        ) || adj[u][j] == idx) by {
            let d = adj[u][j] as int;
            let e = passage(adj, costs, u, j);
            assert(awaited(adj, costs, s, u, j));
            if unvisited(s.visited, d) && d != idx {
                assert(e != edge);
                assert(p.heap.to_multiset().contains(e));
            }
        }
        lemma_visit(adj, costs, start, p, idx);
    } else {
        let t = Search { heap, visited: s.visited, tree: s.tree };
        assert forall|u: int, j: int|
            0 <= u < adj.len() && 0 <= j < adj[u].len() && t.visited[u] implies #[trigger] awaited(
            adj,
            costs,
            t,
            u,
            j,
        ) by {
            let d = adj[u][j] as int;
            let e = passage(adj, costs, u, j);
            assert(awaited(adj, costs, s, u, j));
            if unvisited(s.visited, d) {
                assert(e != edge);
                assert(t.heap.to_multiset().contains(e));
            }
        }
    }
}

/// The search stays in order until it stops, and it does stop.
pub proof fn lemma_run(adj: Seq<Seq<usize>>, costs: Seq<Seq<u8>>, start: int, s: Search)
    requires
        search_inv(adj, costs, start, s),
    ensures
        search_inv(adj, costs, start, run(adj, costs, s)),
        finished(adj, run(adj, costs, s)),
    decreases count_unvisited(s.visited), s.heap.len(),
{
    if !finished(adj, s) {
        lemma_expand_progress(adj, costs, s);
        lemma_expand(adj, costs, start, s);
        lemma_run(adj, costs, start, expand(adj, costs, s));
    }
}

/// A walk that begins inside a set which no passage leaves ends inside it.
pub proof fn lemma_path_stays(adj: Seq<Seq<usize>>, cells: Set<int>, path: Seq<int>)
    requires
        is_path(adj, path),
        closed_under(adj, cells),
        cells.contains(path.first()),
    ensures
        cells.contains(path.last()),
    decreases path.len(),
{
    if path.len() > 1 {
        let shorter = path.drop_last();
        assert forall|k: int| 0 <= k < shorter.len() - 1 implies is_passage(
            adj,
            #[trigger] shorter[k],
            shorter[k + 1],
        ) by {
            assert(is_passage(adj, path[k], path[k + 1]));
        }
        lemma_path_stays(adj, cells, shorter);
        let u = path[path.len() - 2];
        assert(is_passage(adj, u, path[path.len() - 2 + 1]));
        let j = choose|j: int| 0 <= j < adj[u].len() && #[trigger] adj[u][j] == path.last();
        assert(cells.contains(adj[u][j] as int));
    }
}

/// A walk can be carried on by one passage.
pub proof fn lemma_reach_further(adj: Seq<Seq<usize>>, from: int, u: int, v: int)
    requires
        reachable(adj, from, u),
        is_passage(adj, u, v),
    ensures
        reachable(adj, from, v),
{
    let path = choose|path: Seq<int>| #[trigger]
        is_path(adj, path) && path.first() == from && path.last() == u;
    let longer = path.push(v);
    assert forall|k: int| 0 <= k < longer.len() - 1 implies is_passage(
        adj,
        #[trigger] longer[k],
        longer[k + 1],
    ) by {
        if k < path.len() - 1 {
            assert(is_passage(adj, path[k], path[k + 1]));
        }
    }
    assert(is_path(adj, longer) && longer.first() == from && longer.last() == v);
}

/// Every cell of the graph can be reached from itself.
pub proof fn lemma_reach_self(adj: Seq<Seq<usize>>, v: int)
    ensures
        reachable(adj, v, v),
{
    let path = seq![v];
    assert(is_path(adj, path) && path.first() == v && path.last() == v);
}

/// Every cell that a tree from `start` has reached can be reached from
/// `start`.
pub proof fn lemma_tree_reaches(
    adj: Seq<Seq<usize>>,
    costs: Seq<Seq<u8>>,
    start: int,
    tree: Seq<Edge>,
    v: int,
)
    requires
        is_tree_from(adj, costs, start, tree),
        in_tree(tree, start, v),
    ensures
        reachable(adj, start, v),
    decreases tree.len(),
{
    if v == start {
        lemma_reach_self(adj, start);
    } else {
        let k = choose|k: int| 0 <= k < tree.len() && #[trigger] tree[k].destination == v;
        let front = tree.take(k);
        assert(grows_at(adj, costs, start, tree, k));
        assert forall|i: int| 0 <= i < front.len() implies #[trigger] grows_at(
            adj,
            costs,
            start,
            front,
            i,
        ) by {
            assert(grows_at(adj, costs, start, tree, i));
            assert(front.take(i) =~= tree.take(i));
        }
        lemma_tree_reaches(adj, costs, start, front, tree[k].origin as int);
        let e = tree[k];
        let j = choose|j: int|
            0 <= j < adj[e.origin as int].len() && #[trigger] adj[e.origin as int][j]
                == e.destination && e.cost == cost_of(costs, e.origin as int, j);
        assert(is_passage(adj, e.origin as int, v));
        lemma_reach_further(adj, start, e.origin as int, v);
    }
}

/// The search from a cell of the graph ends with a tree for every other cell
/// exactly if every cell can be reached from the start, and that tree spans
/// the graph.
pub proof fn lemma_spanning_tree(adj: Seq<Seq<usize>>, costs: Seq<Seq<u8>>, start: int)
    requires
        0 <= start < adj.len() <= usize::MAX,
    ensures
        spanning_tree(adj, costs, start) is Some <==> connected_from(adj, start),
        spanning_tree(adj, costs, start) matches Some(tree) ==> is_spanning_tree(
            adj,
            costs,
            start,
            tree,
        ),
{
    let end = run(adj, costs, start_state(adj, costs, start));
    lemma_start(adj, costs, start);
    lemma_run(adj, costs, start, start_state(adj, costs, start));
    if end.tree.len() + 1 == adj.len() {
        lemma_all_visited(end.visited);
        assert forall|v: int| 0 <= v < adj.len() implies #[trigger] reachable(adj, start, v) by {
            assert(end.visited[v]);
            lemma_tree_reaches(adj, costs, start, end.tree, v);
        }
        assert forall|v: int| 0 <= v < adj.len() implies #[trigger] in_tree(end.tree, start, v) by {
            assert(end.visited[v]);
        }
    } else {
        let v = lemma_some_unvisited(end.visited);
        let cells = Set::new(|c: int| !unvisited(end.visited, c));
        vstd::seq_lib::to_multiset_len(end.heap);
        assert forall|u: int, j: int|
            0 <= u < adj.len() && 0 <= j < adj[u].len() && cells.contains(u) implies cells.contains(
            #[trigger] adj[u][j] as int,
        ) by {
            assert(awaited(adj, costs, end, u, j));
            if unvisited(end.visited, adj[u][j] as int) {
                assert(end.heap.to_multiset().contains(passage(adj, costs, u, j)));
                assert(end.heap.to_multiset().len() == 0);
                assert(false);
            }
        }
        assert(end.visited[start]);
        if reachable(adj, start, v) {
            let path = choose|path: Seq<int>| #[trigger]
                is_path(adj, path) && path.first() == start && path.last() == v;
            lemma_path_stays(adj, cells, path);
        }
    }
}

/// In a tree that grows from `start`, no two edges lead to the same cell and
/// none leads back to the start: every cell is reached at most once.
pub proof fn lemma_reached_once(
    adj: Seq<Seq<usize>>,
    costs: Seq<Seq<u8>>,
    start: int,
    tree: Seq<Edge>,
    j: int,
    k: int,
)
    requires
        is_tree_from(adj, costs, start, tree),
        0 <= j < k < tree.len(),
    ensures
        tree[j].destination != tree[k].destination,
        tree[j].destination != start,
        tree[k].destination != start,
{
    assert(grows_at(adj, costs, start, tree, k));
    assert(grows_at(adj, costs, start, tree, j));
    assert(tree.take(k)[j] == tree[j]);
}

/// The tree depends on the cost table only through what the passages of the
/// graph cost: two tables that agree on every passage give the same tree.
pub proof fn lemma_same_costs_same_tree(
    adj: Seq<Seq<usize>>,
    first: Seq<Seq<u8>>,
    second: Seq<Seq<u8>>,
    start: int,
)
    requires
        forall|u: int, j: int|
            0 <= u < adj.len() && 0 <= j < adj[u].len() ==> cost_of(first, u, j) == cost_of(
                second,
                u,
                j,
            ),
    ensures
        spanning_tree(adj, first, start) == spanning_tree(adj, second, start),
{
    lemma_same_costs_same_edges(adj, first, second, start);
    lemma_same_costs_same_run(adj, first, second, start_state(adj, first, start));
}

/// Two cost tables that agree on every passage give every cell the same
/// edges.
proof fn lemma_same_costs_same_edges(
    adj: Seq<Seq<usize>>,
    first: Seq<Seq<u8>>,
    second: Seq<Seq<u8>>,
    idx: int,
)
    requires
        forall|u: int, j: int|
            0 <= u < adj.len() && 0 <= j < adj[u].len() ==> cost_of(first, u, j) == cost_of(
                second,
                u,
                j,
            ),
    ensures
        edges_from(adj, first, idx) == edges_from(adj, second, idx),
{
    assert(edges_from(adj, first, idx) =~= edges_from(adj, second, idx));
}

/// Two cost tables that agree on every passage carry a search on alike.
proof fn lemma_same_costs_same_run(
    adj: Seq<Seq<usize>>,
    first: Seq<Seq<u8>>,
    second: Seq<Seq<u8>>,
    s: Search,
)
    requires
        forall|u: int, j: int|
            0 <= u < adj.len() && 0 <= j < adj[u].len() ==> cost_of(first, u, j) == cost_of(
                second,
                u,
                j,
            ),
    ensures
        run(adj, first, s) == run(adj, second, s),
    decreases count_unvisited(s.visited), s.heap.len(),
{
    if !finished(adj, s) {
        lemma_expand_progress(adj, first, s);
        lemma_same_costs_same_edges(adj, first, second, s.heap[0].destination as int);
        assert(expand(adj, first, s) == expand(adj, second, s));
        lemma_same_costs_same_run(adj, first, second, expand(adj, first, s));
    }
}

/// The edges of a tree cost at most 255 each.
pub proof fn lemma_total_cost_bound(tree: Seq<Edge>)
    ensures
        total_cost(tree) <= 255 * tree.len(),
    decreases tree.len(),
{
    if tree.len() > 0 {
        lemma_total_cost_bound(tree.drop_last());
    }
}

} // verus!
