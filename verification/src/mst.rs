//! The spanning-tree builder: lazy Prim over an adjacency list, with the
//! binary heap as its frontier.

use crate::bheap::{BinaryHeap, PriorityQueue};
use crate::costs::{cost_at, lemma_rows_of_adjacency};
use crate::graph::{lattice_adjacency, Edge, Gridlike};
use crate::heap_order::{is_min_heap, lemma_root_is_least, removed_at};
use crate::lattice::{lemma_lattice_connected, lemma_lattice_mutual};
use crate::minimum::{even, is_cheapest, lemma_minimum_spanning_tree, mutual};
use crate::prim::{
    connected_from, cost_of, count_unvisited, edges_from, expand, finished, is_spanning_tree,
    lemma_expand_progress, lemma_spanning_tree, lemma_total_cost_bound, lemma_with_unvisited,
    run, spanning_tree, start_state, total_cost, with_unvisited, Search,
};
use vstd::prelude::*;

verus! {

/// Why no spanning tree was built.
#[derive(Debug, Clone, Copy, PartialEq, Eq, Structural)]
pub enum MstError {
    /// The frontier ran out before every cell was reached: some cell cannot
    /// be reached from the start.
    Disconnected,
}

/// Returns the edges that leave cell `idx`, one for each neighbour in the
/// order of the adjacency list, each at the cost that the table gives it. A
/// cell outside the graph has none.
pub fn edges_of(adjacency: &Vec<Vec<usize>>, idx: usize, costs: &Vec<Vec<u8>>) -> (edges: Vec<Edge>)
    ensures
        edges@ == edges_from(adjacency.deep_view(), costs.deep_view(), idx as int),
{
    proof {
        lemma_rows_of_adjacency(adjacency);
    }
    let mut edges: Vec<Edge> = Vec::new();
    if idx >= adjacency.len() {
        return edges;
    }
    let mut j: usize = 0;
    while j < adjacency[idx].len()
        invariant
            idx < adjacency@.len(),
            j <= adjacency@[idx as int]@.len(),
            adjacency.deep_view()[idx as int] == adjacency@[idx as int]@,
            edges@.len() == j,
            forall|k: int|
                0 <= k < j ==> #[trigger] edges@[k] == (Edge {
                    origin: idx,
                    destination: adjacency@[idx as int]@[k],
                    cost: cost_of(costs.deep_view(), idx as int, k),
                }),
        decreases adjacency@[idx as int]@.len() - j,
    {
        let cost = cost_at(costs, idx, j);
        edges.push(Edge { origin: idx, destination: adjacency[idx][j], cost });
        j += 1;
    }
    proof {
        assert(edges@ =~= edges_from(adjacency.deep_view(), costs.deep_view(), idx as int));
    }
    edges
}

impl Gridlike {
    /// Returns the edges from cell `idx` to its neighbours, each at the cost
    /// that the table gives it.
    pub fn edges(&self, idx: usize, costs: &Vec<Vec<u8>>) -> (edges: Vec<Edge>)
        ensures
            edges@ == edges_from(
                lattice_adjacency(self.width_spec(), self.height_spec()),
                costs.deep_view(),
                idx as int,
            ),
    {
        edges_of(self.adjacency_list(), idx, costs)
    }
}

impl BinaryHeap<Edge> {
    /// Marks cell `idx` as visited and inserts its edges to cells not yet
    /// visited.
    pub fn add_edges(
        &mut self,
        idx: usize,
        visited: &mut Vec<bool>,
        adjacency: &Vec<Vec<usize>>,
        costs: &Vec<Vec<u8>>,
    )
        requires
            idx < old(visited)@.len(),
        ensures
            final(visited)@ == old(visited)@.update(idx as int, true),
            final(self)@ == with_unvisited(
                old(self)@,
                edges_from(adjacency.deep_view(), costs.deep_view(), idx as int),
                final(visited)@,
            ),
            is_min_heap(old(self)@) ==> is_min_heap(final(self)@),
    {
        proof {
            lemma_with_unvisited(
                self@,
                edges_from(adjacency.deep_view(), costs.deep_view(), idx as int),
                visited@.update(idx as int, true),
            );
        }
        visited.set(idx, true);
        let edges = edges_of(adjacency, idx, costs);
        let mut i: usize = 0;
        while i < edges.len()
            invariant
                i <= edges@.len(),
                visited@ == old(visited)@.update(idx as int, true),
                self@ == with_unvisited(old(self)@, edges@.take(i as int), visited@),
            decreases edges@.len() - i,
        {
            proof {
                assert(edges@.take(i + 1).drop_last() =~= edges@.take(i as int));
            }
            let edge = edges[i];
            if edge.destination < visited.len() && !visited[edge.destination] {
                self.insert(edge);
            }
            i += 1;
        }
        proof {
            assert(edges@.take(edges@.len() as int) =~= edges@);
        }
    }

    /// Takes the cheapest edge out of the heap and returns it, or returns
    /// `None` where the heap is empty.
    pub fn lowest_cost_edge(&mut self) -> (least: Option<Edge>)
        ensures
            final(self)@ == removed_at(old(self)@, 0),
            least == if old(self)@.len() > 0 {
                Some(old(self)@[0])
            } else {
                None
            },
            is_min_heap(old(self)@) ==> is_min_heap(final(self)@),
            is_min_heap(old(self)@) ==> (least matches Some(edge) ==> forall|i: int|
                0 <= i < old(self)@.len() ==> edge.cost <= (#[trigger] old(self)@[i]).cost),
    {
        proof {
            if self@.len() > 0 && is_min_heap(self@) {
                assert forall|i: int| 0 <= i < self@.len() implies self@[0].cost <= (
                #[trigger] self@[i]).cost by {
                    lemma_root_is_least(self@, i);
                }
            }
        }
        self.poll()
    }
}

/// Builds a spanning tree of the graph by lazy Prim, starting at cell `idx`.
///
/// The frontier is a min-heap of edges. The cheapest edge leaves it; where it
/// leads to a visited cell it is dropped, else it joins the tree and the
/// edges of its destination join the frontier. The search stops when the tree
/// has an edge for every cell but the start, or when the frontier is empty.
///
/// Returns the total cost and the tree edges in the order in which they were
/// accepted, or `Disconnected` where some cell cannot be reached from `idx`.
pub fn lazy_prims(idx: usize, adjacency: &Vec<Vec<usize>>, costs: &Vec<Vec<u8>>) -> (r: Result<
    (u64, Vec<Edge>),
    MstError,
>)
    requires
        idx < adjacency@.len(),
        adjacency@.len() * 255 <= u64::MAX,
    ensures
        match r {
            Ok((total, edges)) => spanning_tree(
                adjacency.deep_view(),
                costs.deep_view(),
                idx as int,
            ) == Some(edges@) && total == total_cost(edges@),
            Err(_) => spanning_tree(adjacency.deep_view(), costs.deep_view(), idx as int) is None,
        },
        r is Ok <==> connected_from(adjacency.deep_view(), idx as int),
        r matches Ok((_, edges)) ==> is_spanning_tree(
            adjacency.deep_view(),
            costs.deep_view(),
            idx as int,
            edges@,
        ),
        r matches Ok((total, _)) ==> (mutual(adjacency.deep_view()) && even(
            adjacency.deep_view(),
            costs.deep_view(),
        ) ==> is_cheapest(adjacency.deep_view(), costs.deep_view(), idx as int, total as nat)),
{
    let ghost adj = adjacency.deep_view();
    let ghost table = costs.deep_view();
    let cells = adjacency.len();
    proof {
        lemma_rows_of_adjacency(adjacency);
        lemma_spanning_tree(adj, table, idx as int);
    }
    let mst_len: usize = cells - 1;
    let mut mst_cost: u64 = 0;
    let mut mst_edges: Vec<Edge> = Vec::new();
    let mut priority_queue = BinaryHeap::<Edge>::with_capacity(cells);
    let mut visited: Vec<bool> = Vec::new();
    while visited.len() < cells
        invariant
            visited@.len() <= cells,
            forall|i: int| 0 <= i < visited@.len() ==> !visited@[i],
        decreases cells - visited@.len(),
    {
        visited.push(false);
    }
    assert(visited@ =~= Seq::new(adj.len(), |i: int| false));
    priority_queue.add_edges(idx, &mut visited, adjacency, costs);
    while !priority_queue.heap.is_empty() && mst_edges.len() != mst_len
        invariant
            adj == adjacency.deep_view(),
            table == costs.deep_view(),
            cells == adj.len(),
            mst_len + 1 == cells,
            cells * 255 <= u64::MAX,
            visited@.len() == cells,
            mst_edges@.len() <= mst_len,
            mst_cost == total_cost(mst_edges@),
            run(adj, table, Search { heap: priority_queue@, visited: visited@, tree: mst_edges@ })
                == run(adj, table, start_state(adj, table, idx as int)),
        decreases count_unvisited(visited@), priority_queue@.len(),
    {
        let ghost before = Search { heap: priority_queue@, visited: visited@, tree: mst_edges@ };
        proof {
            lemma_expand_progress(adj, table, before);
            assert(!finished(adj, before));
        }
        let polled = priority_queue.lowest_cost_edge();
        let edge = polled.unwrap();
        if edge.destination < visited.len() && !visited[edge.destination] {
            proof {
                lemma_total_cost_bound(mst_edges@);
                assert(mst_edges@.push(edge).drop_last() =~= mst_edges@);
                assert(mst_len * 255 <= cells * 255) by (nonlinear_arith)
                    requires
                        mst_len <= cells,
                ;
            }
            mst_edges.push(edge);
            mst_cost = mst_cost + edge.cost as u64;
            priority_queue.add_edges(edge.destination, &mut visited, adjacency, costs);
        }
        proof {
            let after = Search { heap: priority_queue@, visited: visited@, tree: mst_edges@ };
            assert(after == expand(adj, table, before));
        }
    }
    proof {
        let end = Search { heap: priority_queue@, visited: visited@, tree: mst_edges@ };
        assert(finished(adj, end));
    }
    if mst_edges.len() != mst_len {
        Err(MstError::Disconnected)
    } else {
        proof {
            if mutual(adj) && even(adj, table) {
                lemma_minimum_spanning_tree(adj, table, idx as int, mst_edges@);
            }
        }
        Ok((mst_cost, mst_edges))
    }
}

/// Builds a spanning tree of the grid, starting at the cell at position
/// `start_index`: the total cost and the tree edges in the order in which
/// they were accepted. On a grid every cell can be reached from every other,
/// so the builder never reports `Disconnected` here.
pub fn build_mst(grid: &Gridlike, start_index: usize, costs: &Vec<Vec<u8>>) -> (r: Result<
    (u64, Vec<Edge>),
    MstError,
>)
    requires
        start_index < grid.width_spec() * grid.height_spec(),
        grid.width_spec() * grid.height_spec() * 255 <= u64::MAX,
    ensures
        r matches Ok((total, edges)) && spanning_tree(
            lattice_adjacency(grid.width_spec(), grid.height_spec()),
            costs.deep_view(),
            start_index as int,
        ) == Some(edges@) && total == total_cost(edges@) && is_spanning_tree(
            lattice_adjacency(grid.width_spec(), grid.height_spec()),
            costs.deep_view(),
            start_index as int,
            edges@,
        ),
        r matches Ok((total, _)) && (even(
            lattice_adjacency(grid.width_spec(), grid.height_spec()),
            costs.deep_view(),
        ) ==> is_cheapest(
            lattice_adjacency(grid.width_spec(), grid.height_spec()),
            costs.deep_view(),
            start_index as int,
            total as nat,
        )),
{
    let adjacency = grid.adjacency_list();
    proof {
        assert(adjacency.len() == adjacency@.len());
        lemma_rows_of_adjacency(adjacency);
        lemma_lattice_connected(grid.width_spec(), grid.height_spec(), start_index as int);
        lemma_lattice_mutual(grid.width_spec(), grid.height_spec());
    }
    lazy_prims(start_index, adjacency, costs)
}

} // verus!
