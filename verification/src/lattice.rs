//! What holds of the adjacency list of a rectangular grid: passages stay
//! inside the grid, every passage has its return, and every cell can be
//! reached from every other.

use crate::graph::{
    lattice_adjacency, lattice_neighbors, lattice_node, lemma_cell_position, lemma_position_cell,
    present, Node,
};
use crate::minimum::mutual;
use crate::prim::{
    connected_from, is_passage, lemma_reach_further, lemma_reach_self, reachable,
};
use vstd::prelude::*;

verus! {

/// Where the cell stands in the row-major cell list of a grid that is
/// `width` cells wide.
pub open spec fn cell_index(width: usize, node: Node) -> int {
    node.y * width + node.x
}

/// The adjacency list of a grid names, for the cell at position `i`, the
/// positions of the cells that the four steps from that cell reach.
pub proof fn lemma_neighbors_are_adjacent_cells(width: usize, height: usize, i: int)
    requires
        width * height <= usize::MAX,
        0 <= i < width * height,
    ensures
        lattice_neighbors(width, height, i) == lattice_node(width, i).all_adjacent_spec(
            width,
            height,
        ).map_values(|n: Node| cell_index(width, n) as usize),
{
    let w = width as int;
    lemma_position_cell(width, height, i);
    let x = i % w;
    let y = i / w;
    let node = lattice_node(width, i);
    assert((y - 1) * w + x == i - w) by (nonlinear_arith)
        requires
            y * w + x == i,
    ;
    assert((y + 1) * w + x == i + w) by (nonlinear_arith)
        requires
            y * w + x == i,
    ;
    let steps = seq![
        node.north_spec(),
        node.east_spec(width),
        node.south_spec(height),
        node.west_spec(),
    ];
    // `present` takes the steps one at a time, from the last
    let one = steps.take(1);
    let two = steps.take(2);
    let three = steps.take(3);
    assert(one.drop_last() =~= Seq::<Option<Node>>::empty());
    assert(two.drop_last() =~= one);
    assert(three.drop_last() =~= two);
    assert(steps.drop_last() =~= three);
    assert(present(one.drop_last()) =~= Seq::<Node>::empty());
    assert(present(one).len() <= 1);
    assert(present(two).len() <= 2);
    assert(present(three).len() <= 3);
    assert(lattice_neighbors(width, height, i) =~= present(steps).map_values(
        |n: Node| cell_index(width, n) as usize,
    ));
}

/// How many sides of the cell at position `i` lie on the border of the grid.
pub open spec fn border_sides(width: usize, height: usize, i: int) -> int {
    let node = lattice_node(width, i);
    (if node.y == 0 {
        1int
    } else {
        0int
    }) + (if node.x + 1 == width {
        1int
    } else {
        0int
    }) + (if node.y + 1 == height {
        1int
    } else {
        0int
    }) + (if node.x == 0 {
        1int
    } else {
        0int
    })
}

/// A cell has a neighbour on every side that does not lie on the border:
/// four in the middle of the grid, fewer along its sides and in its corners.
pub proof fn lemma_neighbor_count(width: usize, height: usize, i: int)
    requires
        width * height <= usize::MAX,
        0 <= i < width * height,
    ensures
        lattice_neighbors(width, height, i).len() == 4 - border_sides(width, height, i),
{
    lemma_position_cell(width, height, i);
}

/// Every neighbour of a cell of the grid is a cell of the grid.
pub proof fn lemma_neighbors_inside(width: usize, height: usize, i: int, j: int)
    requires
        width * height <= usize::MAX,
        0 <= i < width * height,
        0 <= j < lattice_neighbors(width, height, i).len(),
    ensures
        lattice_neighbors(width, height, i)[j] < width * height,
        lattice_neighbors(width, height, i)[j] != i,
{
    let w = width as int;
    lemma_position_cell(width, height, i);
    let x = i % w;
    let y = i / w;
    if y > 0 {
        lemma_cell_position(width, height, x, y - 1);
        assert((y - 1) * w + x == i - w) by (nonlinear_arith)
            requires
                y * w + x == i,
        ;
    }
    if y + 1 < height {
        lemma_cell_position(width, height, x, y + 1);
        assert((y + 1) * w + x == i + w) by (nonlinear_arith)
            requires
                y * w + x == i,
        ;
    }
    if x + 1 < width {
        lemma_cell_position(width, height, x + 1, y);
    }
    let north: Seq<usize> = if y > 0 {
        seq![(i - width) as usize]
    } else {
        Seq::empty()
    };
    let east: Seq<usize> = if x + 1 < width {
        seq![(i + 1) as usize]
    } else {
        Seq::empty()
    };
    let south: Seq<usize> = if y + 1 < height {
        seq![(i + width) as usize]
    } else {
        Seq::empty()
    };
    let west: Seq<usize> = if x > 0 {
        seq![(i - 1) as usize]
    } else {
        Seq::empty()
    };
    assert(lattice_neighbors(width, height, i) == north + east + south + west);
    if j < north.len() {
    } else if j < north.len() + east.len() {
    } else if j < north.len() + east.len() + south.len() {
    } else {
    }
}

/// Every cell but the first has a neighbour that stands before it in the
/// cell list, and that neighbour has the cell among its own.
pub proof fn lemma_earlier_neighbor(width: usize, height: usize, i: int) -> (n: int)
    requires
        width * height <= usize::MAX,
        0 < i < width * height,
    ensures
        0 <= n < i,
        is_passage(lattice_adjacency(width, height), i, n),
        is_passage(lattice_adjacency(width, height), n, i),
{
    let w = width as int;
    let adj = lattice_adjacency(width, height);
    lemma_position_cell(width, height, i);
    let x = i % w;
    let y = i / w;
    let here = lattice_neighbors(width, height, i);
    if x > 0 {
        let n = i - 1;
        lemma_cell_position(width, height, x - 1, y);
        let there = lattice_neighbors(width, height, n);
        assert(here[here.len() - 1] == n);
        let north_len: int = if y > 0 {
            1
        } else {
            0
        };
        assert(there[north_len] == i);
        assert(adj[i][here.len() - 1] == n);
        assert(adj[n][north_len] == i);
        n
    } else {
        assert(y > 0) by (nonlinear_arith)
            requires
                y * w + x == i,
                x == 0,
                i > 0,
                y >= 0,
        ;
        let n = i - w;
        lemma_cell_position(width, height, x, y - 1);
        assert((y - 1) * w + x == i - w) by (nonlinear_arith)
            requires
                y * w + x == i,
        ;
        let there = lattice_neighbors(width, height, n);
        assert(here[0] == n);
        let before_south: int = (if y - 1 > 0 {
            1int
        } else {
            0int
        }) + (if x + 1 < w {
            1int
        } else {
            0int
        });
        assert(there[before_south] == i);
        assert(adj[i][0] == n);
        assert(adj[n][before_south] == i);
        n
    }
}

/// In a rectangular grid every passage leads to a cell of the grid, and that
/// cell has a passage back.
pub proof fn lemma_lattice_mutual(width: usize, height: usize)
    requires
        width * height <= usize::MAX,
    ensures
        mutual(lattice_adjacency(width, height)),
{
    let adj = lattice_adjacency(width, height);
    let w = width as int;
    assert forall|u: int, j: int| 0 <= u < adj.len() && 0 <= j < adj[u].len() implies ({
        let v = #[trigger] adj[u][j] as int;
        v < adj.len() && exists|k: int| 0 <= k < adj[v].len() && #[trigger] adj[v][k] == u
    }) by {
        lemma_neighbors_inside(width, height, u, j);
        lemma_position_cell(width, height, u);
        let x = u % w;
        let y = u / w;
        let v = adj[u][j] as int;
        let here = lattice_neighbors(width, height, u);
        let there = lattice_neighbors(width, height, v);
        lemma_position_cell(width, height, v);
        let vx = v % w;
        let vy = v / w;
        let north: int = if y > 0 {
            1
        } else {
            0
        };
        let east: int = if x + 1 < w {
            1
        } else {
            0
        };
        let south: int = if y + 1 < height {
            1
        } else {
            0
        };
        let v_north: int = if vy > 0 {
            1
        } else {
            0
        };
        let v_east: int = if vx + 1 < w {
            1
        } else {
            0
        };
        let v_south: int = if vy + 1 < height {
            1
        } else {
            0
        };
        assert((y - 1) * w + x == u - w) by (nonlinear_arith)
            requires
                y * w + x == u,
        ;
        assert((y + 1) * w + x == u + w) by (nonlinear_arith)
            requires
                y * w + x == u,
        ;
        if j < north {
            lemma_cell_position(width, height, x, y - 1);
            assert(v == u - w);
            assert(there[v_north + v_east] == u);
            assert(adj[v][v_north + v_east] == u);
        } else if j < north + east {
            lemma_cell_position(width, height, x + 1, y);
            assert(v == u + 1);
            assert(there[there.len() - 1] == u);
            assert(adj[v][there.len() - 1] == u);
        } else if j < north + east + south {
            lemma_cell_position(width, height, x, y + 1);
            assert(v == u + w);
            assert(there[0] == u);
            assert(adj[v][0] == u);
        } else {
            lemma_cell_position(width, height, x - 1, y);
            assert(v == u - 1);
            assert(there[v_north] == u);
            assert(adj[v][v_north] == u);
        }
    }
}

/// What can be reached from `from` at all leads on to the first cell.
proof fn lemma_reach_first(width: usize, height: usize, from: int, i: int)
    requires
        width * height <= usize::MAX,
        0 <= i < width * height,
        reachable(lattice_adjacency(width, height), from, i),
    ensures
        reachable(lattice_adjacency(width, height), from, 0),
    decreases i,
{
    if i > 0 {
        let n = lemma_earlier_neighbor(width, height, i);
        lemma_reach_further(lattice_adjacency(width, height), from, i, n);
        lemma_reach_first(width, height, from, n);
    }
}

/// What leads to the first cell leads to every cell.
proof fn lemma_reach_any(width: usize, height: usize, from: int, v: int)
    requires
        width * height <= usize::MAX,
        0 <= v < width * height,
        reachable(lattice_adjacency(width, height), from, 0),
    ensures
        reachable(lattice_adjacency(width, height), from, v),
    decreases v,
{
    if v > 0 {
        let n = lemma_earlier_neighbor(width, height, v);
        lemma_reach_any(width, height, from, n);
        lemma_reach_further(lattice_adjacency(width, height), from, n, v);
    }
}

/// In a rectangular grid every cell can be reached from every cell.
pub proof fn lemma_lattice_connected(width: usize, height: usize, start: int)
    requires
        width * height <= usize::MAX,
        0 <= start < width * height,
    ensures
        connected_from(lattice_adjacency(width, height), start),
{
    let adj = lattice_adjacency(width, height);
    lemma_reach_self(adj, start);
    lemma_reach_first(width, height, start, start);
    assert forall|v: int| 0 <= v < adj.len() implies #[trigger] reachable(adj, start, v) by {
        lemma_reach_any(width, height, start, v);
    }
}

} // verus!
