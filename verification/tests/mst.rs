use mazegen::bheap::{BinaryHeap, PriorityQueue};
use mazegen::costs::{cost_at, random_costs};
use mazegen::graph::{Edge, Gridlike};
use mazegen::mst::{build_mst, edges_of, lazy_prims, MstError};

fn triple(e: &Edge) -> (usize, usize, u8) {
    (e.origin, e.destination, e.cost)
}

fn triples(edges: &[Edge]) -> Vec<(usize, usize, u8)> {
    edges.iter().map(triple).collect()
}

/// A cost for every passage of the list, the same in both directions.
fn symmetric_costs(adjacency: &[Vec<usize>], weight: &dyn Fn(usize, usize) -> u8) -> Vec<Vec<u8>> {
    adjacency
        .iter()
        .enumerate()
        .map(|(i, row)| row.iter().map(|j| weight(i.min(*j), i.max(*j))).collect())
        .collect()
}

/// A cost for every passage of the list, each direction with its own.
fn scrambled_costs(adjacency: &[Vec<usize>], seed: u64) -> Vec<Vec<u8>> {
    let mut state = seed;
    adjacency
        .iter()
        .map(|row| {
            row.iter()
                .map(|_| {
                    state ^= state << 13;
                    state ^= state >> 7;
                    state ^= state << 17;
                    (state >> 24) as u8
                })
                .collect()
        })
        .collect()
}

fn root(parent: &mut Vec<usize>, v: usize) -> usize {
    let mut at = v;
    while parent[at] != at {
        at = parent[at];
    }
    parent[v] = at;
    at
}

/// The least total cost of a spanning tree, by trying every choice of
/// `cells - 1` of the undirected passages.
fn cheapest_tree_by_enumeration(cells: usize, passages: &[(usize, usize, u8)]) -> Option<u64> {
    let mut best: Option<u64> = None;
    for mask in 0u32..(1u32 << passages.len()) {
        if mask.count_ones() as usize != cells - 1 {
            continue;
        }
        let mut parent: Vec<usize> = (0..cells).collect();
        let mut total: u64 = 0;
        let mut is_tree = true;
        for (k, (a, b, c)) in passages.iter().enumerate() {
            if mask & (1 << k) != 0 {
                let (ra, rb) = (root(&mut parent, *a), root(&mut parent, *b));
                if ra == rb {
                    is_tree = false;
                    break;
                }
                parent[ra] = rb;
                total += *c as u64;
            }
        }
        if is_tree && best.map_or(true, |b| total < b) {
            best = Some(total);
        }
    }
    best
}

fn passages_of(adjacency: &[Vec<usize>], costs: &[Vec<u8>]) -> Vec<(usize, usize, u8)> {
    let mut out = Vec::new();
    for (i, row) in adjacency.iter().enumerate() {
        for (slot, j) in row.iter().enumerate() {
            if i < *j {
                out.push((i, *j, costs[i][slot]));
            }
        }
    }
    out
}

fn assert_spans(adjacency: &[Vec<usize>], costs: &[Vec<u8>], start: usize, total: u64, edges: &[Edge]) {
    let cells = adjacency.len();
    assert_eq!(edges.len(), cells - 1);
    let mut seen = vec![false; cells];
    seen[start] = true;
    for e in edges {
        assert!(seen[e.origin], "the origin of an edge is reached before the edge");
        assert!(!seen[e.destination], "no cell is reached twice");
        let slot = adjacency[e.origin].iter().position(|d| *d == e.destination);
        assert!(slot.is_some(), "an edge of the tree is a passage of the graph");
        assert_eq!(e.cost, costs[e.origin][slot.unwrap()]);
        seen[e.destination] = true;
    }
    assert!(seen.iter().all(|s| *s));
    assert_eq!(total, edges.iter().map(|e| e.cost as u64).sum::<u64>());
}

fn permutations(items: &[u8]) -> Vec<Vec<u8>> {
    if items.len() <= 1 {
        return vec![items.to_vec()];
    }
    let mut out = Vec::new();
    for i in 0..items.len() {
        let mut rest = items.to_vec();
        let head = rest.remove(i);
        for mut tail in permutations(&rest) {
            tail.insert(0, head);
            out.push(tail);
        }
    }
    out
}

#[test]
fn two_by_two_grid_gives_the_cheapest_tree_for_every_order_of_costs() {
    let grid = Gridlike::new(2, 2);
    let adjacency = grid.adjacency_list().clone();
    let pairs = [(0usize, 1usize), (0, 2), (1, 3), (2, 3)];
    for order in permutations(&[10, 20, 30, 40]) {
        let weight = |a: usize, b: usize| order[pairs.iter().position(|p| *p == (a, b)).unwrap()];
        let costs = symmetric_costs(&adjacency, &weight);
        for start in 0..4 {
            let (total, edges) = build_mst(&grid, start, &costs).unwrap();
            assert_spans(&adjacency, &costs, start, total, &edges);
            let expected = cheapest_tree_by_enumeration(4, &passages_of(&adjacency, &costs));
            assert_eq!(Some(total), expected);
            assert_eq!(total, 60);
            let dearest = pairs[order.iter().position(|c| *c == 40).unwrap()];
            for e in &edges {
                assert_ne!((e.origin.min(e.destination), e.origin.max(e.destination)), dearest);
            }
        }
    }
}

#[test]
fn two_by_two_grid_with_known_costs() {
    let grid = Gridlike::new(2, 2);
    let costs: Vec<Vec<u8>> = vec![vec![1, 2], vec![3, 1], vec![2, 4], vec![3, 4]];
    let (total, edges) = build_mst(&grid, 0, &costs).unwrap();
    assert_eq!(total, 6);
    assert_eq!(triples(&edges), vec![(0, 1, 1), (0, 2, 2), (1, 3, 3)]);
}

#[test]
fn three_by_two_grid_gives_the_cheapest_tree() {
    let grid = Gridlike::new(3, 2);
    let adjacency = grid.adjacency_list().clone();
    for seed in 1..40u64 {
        let weight = |a: usize, b: usize| (((a * 7 + b * 13) as u64 * seed * 2654435761) >> 7) as u8;
        let costs = symmetric_costs(&adjacency, &weight);
        for start in 0..6 {
            let (total, edges) = build_mst(&grid, start, &costs).unwrap();
            assert_spans(&adjacency, &costs, start, total, &edges);
            let expected = cheapest_tree_by_enumeration(6, &passages_of(&adjacency, &costs));
            assert_eq!(Some(total), expected);
        }
    }
}

#[test]
fn tree_of_a_grid_has_an_edge_for_every_cell_but_the_start() {
    let grid = Gridlike::new(7, 5);
    let adjacency = grid.adjacency_list().clone();
    for seed in 1..20u64 {
        let costs = scrambled_costs(&adjacency, seed);
        for start in [0usize, 17, 34] {
            let (total, edges) = build_mst(&grid, start, &costs).unwrap();
            assert_eq!(edges.len(), 34);
            assert_spans(&adjacency, &costs, start, total, &edges);
        }
    }
}

#[test]
fn total_cost_is_the_sum_of_the_edge_costs() {
    let grid = Gridlike::new(6, 6);
    let costs = scrambled_costs(grid.adjacency_list(), 99);
    let (total, edges) = build_mst(&grid, 3, &costs).unwrap();
    let mut sum: u64 = 0;
    for e in &edges {
        sum += e.cost as u64;
    }
    assert_eq!(total, sum);
}

#[test]
fn same_costs_give_the_same_tree() {
    let grid = Gridlike::new(9, 4);
    let costs = scrambled_costs(grid.adjacency_list(), 4242);
    let first = build_mst(&grid, 5, &costs).unwrap();
    let second = build_mst(&grid, 5, &costs).unwrap();
    assert_eq!(first.0, second.0);
    assert_eq!(triples(&first.1), triples(&second.1));
    let other = Gridlike::new(9, 4);
    let third = lazy_prims(5, other.adjacency_list(), &costs.clone()).unwrap();
    assert_eq!(first.0, third.0);
    assert_eq!(triples(&first.1), triples(&third.1));
}

#[test]
fn equal_costs_are_taken_in_the_order_of_the_heap() {
    let grid = Gridlike::new(2, 2);
    let costs: Vec<Vec<u8>> = vec![vec![5, 5], vec![5, 5], vec![5, 5], vec![5, 5]];
    let (total, edges) = build_mst(&grid, 0, &costs).unwrap();
    assert_eq!(total, 15);
    assert_eq!(triples(&edges), vec![(0, 1, 5), (0, 2, 5), (1, 3, 5)]);
}

#[test]
fn the_two_directions_of_a_passage_may_cost_differently() {
    let adjacency: Vec<Vec<usize>> = vec![vec![1], vec![0]];
    let costs: Vec<Vec<u8>> = vec![vec![3], vec![200]];
    assert_eq!(lazy_prims(0, &adjacency, &costs).map(|r| (r.0, triples(&r.1))), Ok((3, vec![(0, 1, 3)])));
    assert_eq!(lazy_prims(1, &adjacency, &costs).map(|r| (r.0, triples(&r.1))), Ok((200, vec![(1, 0, 200)])));
}

#[test]
fn stale_edges_are_dropped_when_they_come_up() {
    let adjacency: Vec<Vec<usize>> = vec![vec![1, 2], vec![0, 2], vec![0, 1, 3], vec![2]];
    let costs: Vec<Vec<u8>> = vec![vec![1, 5], vec![9, 2], vec![9, 9, 7], vec![9]];
    let (total, edges) = lazy_prims(0, &adjacency, &costs).unwrap();
    assert_eq!(triples(&edges), vec![(0, 1, 1), (1, 2, 2), (2, 3, 7)]);
    assert_eq!(total, 10);
}

#[test]
fn a_graph_in_two_parts_is_reported_as_disconnected() {
    let adjacency: Vec<Vec<usize>> = vec![vec![1], vec![0], vec![3], vec![2]];
    let costs: Vec<Vec<u8>> = vec![vec![1], vec![1], vec![1], vec![1]];
    for start in 0..4 {
        assert_eq!(lazy_prims(start, &adjacency, &costs).map(|r| r.0), Err(MstError::Disconnected));
    }
    let lonely: Vec<Vec<usize>> = vec![vec![], vec![]];
    assert_eq!(lazy_prims(0, &lonely, &vec![]).map(|r| r.0), Err(MstError::Disconnected));
}

#[test]
fn a_cell_that_only_others_lead_away_from_is_not_reached() {
    let adjacency: Vec<Vec<usize>> = vec![vec![1], vec![], vec![0]];
    let costs: Vec<Vec<u8>> = vec![vec![4], vec![], vec![6]];
    assert_eq!(lazy_prims(0, &adjacency, &costs).map(|r| r.0), Err(MstError::Disconnected));
    assert_eq!(
        lazy_prims(2, &adjacency, &costs).map(|r| (r.0, triples(&r.1))),
        Ok((10, vec![(2, 0, 6), (0, 1, 4)]))
    );
}

#[test]
fn a_single_cell_is_its_own_tree() {
    let grid = Gridlike::new(1, 1);
    let (total, edges) = build_mst(&grid, 0, &vec![vec![]]).unwrap();
    assert_eq!(total, 0);
    assert!(edges.is_empty());
}

#[test]
fn passages_that_leave_the_graph_lead_nowhere() {
    let adjacency: Vec<Vec<usize>> = vec![vec![5, 1], vec![0, 9]];
    let costs: Vec<Vec<u8>> = vec![vec![1, 8], vec![2, 3]];
    assert_eq!(lazy_prims(0, &adjacency, &costs).map(|r| (r.0, triples(&r.1))), Ok((8, vec![(0, 1, 8)])));
}

#[test]
fn passages_without_a_listed_cost_are_free() {
    let grid = Gridlike::new(3, 3);
    let (total, edges) = build_mst(&grid, 4, &vec![]).unwrap();
    assert_eq!(total, 0);
    assert_eq!(edges.len(), 8);
    assert!(edges.iter().all(|e| e.cost == 0));
    let partly: Vec<Vec<u8>> = vec![vec![7]];
    assert_eq!(cost_at(&partly, 0, 0), 7);
    assert_eq!(cost_at(&partly, 0, 1), 0);
    assert_eq!(cost_at(&partly, 1, 0), 0);
}

#[test]
fn edges_of_a_cell_follow_its_adjacency() {
    let grid = Gridlike::new(3, 2);
    let costs: Vec<Vec<u8>> =
        vec![vec![1, 2], vec![3, 4, 5], vec![6, 7], vec![8, 9], vec![10, 11, 12], vec![13, 14]];
    assert_eq!(triples(&grid.edges(1, &costs)), vec![(1, 2, 3), (1, 4, 4), (1, 0, 5)]);
    assert_eq!(triples(&grid.edges(5, &costs)), vec![(5, 2, 13), (5, 4, 14)]);
    assert!(grid.edges(6, &costs).is_empty());
    assert_eq!(
        triples(&edges_of(grid.adjacency_list(), 4, &costs)),
        vec![(4, 1, 10), (4, 5, 11), (4, 3, 12)]
    );
}

#[test]
fn random_costs_have_one_cost_for_every_passage() {
    let grid = Gridlike::new(12, 9);
    let costs = random_costs(grid.adjacency_list());
    assert_eq!(costs.len(), grid.len());
    for (row, neighbours) in costs.iter().zip(grid.adjacency_list().iter()) {
        assert_eq!(row.len(), neighbours.len());
    }
    let (total, edges) = build_mst(&grid, 0, &costs).unwrap();
    assert_spans(grid.adjacency_list(), &costs, 0, total, &edges);
}

#[test]
fn a_large_grid_is_spanned() {
    let grid = Gridlike::new(100, 100);
    let costs = scrambled_costs(grid.adjacency_list(), 7);
    let (total, edges) = build_mst(&grid, 0, &costs).unwrap();
    assert_eq!(edges.len(), 9999);
    assert_spans(grid.adjacency_list(), &costs, 0, total, &edges);
}

#[test]
fn add_edges_marks_the_cell_and_offers_its_edges() {
    let grid = Gridlike::new(3, 2);
    let costs: Vec<Vec<u8>> =
        vec![vec![1, 2], vec![30, 4, 5], vec![6, 7], vec![8, 9], vec![10, 11, 12], vec![13, 14]];
    let mut heap: BinaryHeap<Edge> = BinaryHeap::with_capacity(8);
    let mut visited = vec![false; 6];
    visited[2] = true;
    heap.add_edges(1, &mut visited, grid.adjacency_list(), &costs);
    assert_eq!(visited, vec![false, true, true, false, false, false]);
    assert_eq!(triples(&heap.heap), vec![(1, 4, 4), (1, 0, 5)]);
    heap.add_edges(4, &mut visited, grid.adjacency_list(), &costs);
    assert_eq!(visited, vec![false, true, true, false, true, false]);
    assert_eq!(triples(&heap.heap), vec![(1, 4, 4), (1, 0, 5), (4, 5, 11), (4, 3, 12)]);
    assert_eq!(heap.lowest_cost_edge().map(|e| triple(&e)), Some((1, 4, 4)));
    assert_eq!(heap.lowest_cost_edge().map(|e| triple(&e)), Some((1, 0, 5)));
    assert_eq!(heap.lowest_cost_edge().map(|e| triple(&e)), Some((4, 5, 11)));
    assert_eq!(heap.lowest_cost_edge().map(|e| triple(&e)), Some((4, 3, 12)));
    assert!(heap.lowest_cost_edge().is_none());
}

#[test]
fn add_edges_passes_over_a_passage_back_to_the_cell_itself() {
    let adjacency: Vec<Vec<usize>> = vec![vec![0, 1], vec![0]];
    let costs: Vec<Vec<u8>> = vec![vec![1, 2], vec![3]];
    let mut heap: BinaryHeap<Edge> = BinaryHeap::with_capacity(0);
    let mut visited = vec![false; 2];
    heap.add_edges(0, &mut visited, &adjacency, &costs);
    assert_eq!(triples(&heap.heap), vec![(0, 1, 2)]);
}

/// The least total cost of a spanning tree, by taking passages cheapest
/// first and passing over those that would close a circle.
fn cheapest_tree_by_sorting(cells: usize, passages: &[(usize, usize, u8)]) -> u64 {
    let mut sorted = passages.to_vec();
    sorted.sort_by_key(|p| p.2);
    let mut parent: Vec<usize> = (0..cells).collect();
    let mut total: u64 = 0;
    for (a, b, c) in sorted {
        let (ra, rb) = (root(&mut parent, a), root(&mut parent, b));
        if ra != rb {
            parent[ra] = rb;
            total += c as u64;
        }
    }
    total
}

#[test]
fn with_even_costs_the_tree_is_a_cheapest_one() {
    let grid = Gridlike::new(8, 6);
    let adjacency = grid.adjacency_list().clone();
    for seed in 1..30u64 {
        let weight = |a: usize, b: usize| {
            let mut x = (a as u64 * 1_000_003 + b as u64) * seed;
            x ^= x >> 11;
            x = x.wrapping_mul(0x9e37_79b9_7f4a_7c15);
            (x >> 40) as u8
        };
        let costs = symmetric_costs(&adjacency, &weight);
        let expected = cheapest_tree_by_sorting(48, &passages_of(&adjacency, &costs));
        for start in [0usize, 20, 47] {
            let (total, edges) = build_mst(&grid, start, &costs).unwrap();
            assert_spans(&adjacency, &costs, start, total, &edges);
            assert_eq!(total, expected);
        }
    }
}
