//! The maze itself: around every cell the walls that are left standing once
//! the passages of a spanning tree have been opened.

use crate::graph::{
    lattice_node, lattice_nodes, lemma_position_cell, Cardinal, Edge, Gridlike, Node,
};
use vstd::prelude::*;

verus! {

impl DeepView for Cardinal {
    type V = Cardinal;

    open spec fn deep_view(&self) -> Cardinal {
        *self
    }
}

/// A cell walled in on all four sides.
pub open spec fn all_walls() -> Seq<Cardinal> {
    seq![Cardinal::North, Cardinal::East, Cardinal::South, Cardinal::West]
}

/// The test that every side passes but the given one.
pub open spec fn other_than(side: Cardinal) -> spec_fn(Cardinal) -> bool {
    |c: Cardinal| c != side
}

/// The walls without the one on the given side.
pub open spec fn without(walls: Seq<Cardinal>, side: Cardinal) -> Seq<Cardinal> {
    walls.filter(other_than(side))
}

/// The wall map after the passage of one edge has been opened: where the
/// edge joins two cells that share a side, the origin loses the wall on that
/// side and the destination the wall that faces it. An edge between cells
/// that share no side, or that are no cells of the list, opens nothing; a
/// cell that the map does not list loses nothing.
pub open spec fn opened(walls: Seq<Seq<Cardinal>>, cells: Seq<Node>, edge: Edge) -> Seq<
    Seq<Cardinal>,
> {
    if edge.origin < cells.len() && edge.destination < cells.len() {
        match cells[edge.origin as int].side_of(cells[edge.destination as int]) {
            Some(side) => {
                let first = if edge.origin < walls.len() {
                    walls.update(edge.origin as int, without(walls[edge.origin as int], side))
                } else {
                    walls
                };
                if edge.destination < first.len() {
                    first.update(
                        edge.destination as int,
                        without(first[edge.destination as int], side.opposite_spec()),
                    )
                } else {
                    first
                }
            },
            None => walls,
        }
    } else {
        walls
    }
}

/// The wall map after the passages of all the edges have been opened, one
/// after the other.
pub open spec fn walls_after(walls: Seq<Seq<Cardinal>>, cells: Seq<Node>, edges: Seq<Edge>) -> Seq<
    Seq<Cardinal>,
>
    decreases edges.len(),
{
    if edges.len() == 0 {
        walls
    } else {
        opened(walls_after(walls, cells, edges.drop_last()), cells, edges.last())
    }
}

/// The edge opens the wall on the given side of the cell: it joins the cell
/// to the neighbour on that side, in either direction.
pub open spec fn opens(cells: Seq<Node>, edge: Edge, cell: int, side: Cardinal) -> bool {
    &&& edge.origin < cells.len()
    &&& edge.destination < cells.len()
    &&& {
        let way = cells[edge.origin as int].side_of(cells[edge.destination as int]);
        ||| edge.origin == cell && way == Some(side)
        ||| edge.destination == cell && way == Some(side.opposite_spec())
    }
}

/// Taking the wall on one side away leaves exactly the walls on the others.
pub proof fn lemma_without(walls: Seq<Cardinal>, side: Cardinal, c: Cardinal)
    ensures
        without(walls, side).contains(c) <==> walls.contains(c) && c != side,
{
    let pred = other_than(side);
    if without(walls, side).contains(c) {
        walls.lemma_filter_contains_rev(pred, c);
        let i = choose|i: int| 0 <= i < walls.filter(pred).len() && walls.filter(pred)[i] == c;
        walls.lemma_filter_pred(pred, i);
    }
    if walls.contains(c) && c != side {
        let i = choose|i: int| 0 <= i < walls.len() && walls[i] == c;
        walls.lemma_filter_contains(pred, i);
    }
}

/// Opening passages takes no cell off the map, and a wall of a cell stands
/// afterwards exactly if it stood before and none of the edges opens it.
pub proof fn lemma_walls_after(
    walls: Seq<Seq<Cardinal>>,
    cells: Seq<Node>,
    edges: Seq<Edge>,
    cell: int,
    side: Cardinal,
)
    requires
        0 <= cell < walls.len(),
    ensures
        walls_after(walls, cells, edges).len() == walls.len(),
        walls_after(walls, cells, edges)[cell].contains(side) <==> (walls[cell].contains(side)
            && forall|k: int| 0 <= k < edges.len() ==> !opens(cells, #[trigger] edges[k], cell, side)),
    decreases edges.len(),
{
    if edges.len() > 0 {
        let front = edges.drop_last();
        let edge = edges.last();
        let before = walls_after(walls, cells, front);
        lemma_walls_after(walls, cells, front, cell, side);
        assert forall|k: int| 0 <= k < front.len() implies front[k] == edges[k] by {}
        if edge.origin < cells.len() && edge.destination < cells.len() {
            let way = cells[edge.origin as int].side_of(cells[edge.destination as int]);
            if let Some(open) = way {
                Cardinal::lemma_opposite_involution(side);
                Cardinal::lemma_opposite_involution(open);
                lemma_without(before[cell], open, side);
                lemma_without(before[cell], open.opposite_spec(), side);
                assert(edge.origin != edge.destination);
            }
        }
        if walls_after(walls, cells, edges)[cell].contains(side) {
            assert forall|k: int| 0 <= k < edges.len() implies !opens(
                cells,
                #[trigger] edges[k],
                cell,
                side,
            ) by {
                if k < front.len() {
                    assert(front[k] == edges[k]);
                }
            }
        }
        if walls[cell].contains(side) && forall|k: int|
            0 <= k < edges.len() ==> !opens(cells, #[trigger] edges[k], cell, side) {
            assert(!opens(cells, edges[edges.len() - 1], cell, side));
            assert forall|k: int| 0 <= k < front.len() implies !opens(
                cells,
                #[trigger] front[k],
                cell,
                side,
            ) by {
                assert(front[k] == edges[k]);
            }
        }
    }
}

/// The side of the cell at position `cell` lies on the border of the grid.
pub open spec fn faces_outside(width: usize, height: usize, cell: int, side: Cardinal) -> bool {
    let node = lattice_node(width, cell);
    match side {
        Cardinal::North => node.y == 0,
        Cardinal::East => node.x + 1 == width,
        Cardinal::South => node.y + 1 == height,
        Cardinal::West => node.x == 0,
    }
}

/// Whatever edges are opened in the wall map of a grid, the walls on the
/// border of the grid stand: no passage leads out of the maze.
pub proof fn lemma_border_stands(
    width: usize,
    height: usize,
    edges: Seq<Edge>,
    cell: int,
    side: Cardinal,
)
    requires
        width * height <= usize::MAX,
        0 <= cell < width * height,
        faces_outside(width, height, cell, side),
    ensures
        walls_after(
            Seq::new((width * height) as nat, |i: int| all_walls()),
            lattice_nodes(width, height),
            edges,
        )[cell].contains(side),
{
    let walls = Seq::new((width * height) as nat, |i: int| all_walls());
    let cells = lattice_nodes(width, height);
    lemma_walls_after(walls, cells, edges, cell, side);
    assert(all_walls()[0] == Cardinal::North && all_walls()[1] == Cardinal::East && all_walls()[2]
        == Cardinal::South && all_walls()[3] == Cardinal::West);
    assert(walls[cell].contains(side));
    assert forall|k: int| 0 <= k < edges.len() implies !opens(
        cells,
        #[trigger] edges[k],
        cell,
        side,
    ) by {
        let e = edges[k];
        if e.origin < cells.len() && e.destination < cells.len() {
            lemma_position_cell(width, height, e.origin as int);
            lemma_position_cell(width, height, e.destination as int);
        }
    }
}

/// The rows of a wall map are the rows of its deep view.
pub proof fn lemma_rows_of_walls(walls: &Vec<Vec<Cardinal>>)
    ensures
        walls.deep_view().len() == walls@.len(),
        forall|i: int| 0 <= i < walls@.len() ==> #[trigger] walls.deep_view()[i] == walls@[i]@,
{
    assert forall|i: int| 0 <= i < walls@.len() implies #[trigger] walls.deep_view()[i]
        == walls@[i]@ by {
        assert(walls.deep_view()[i] =~= walls@[i]@);
    }
}

/// Returns the walls without the one on the given side, in their order.
pub fn remaining(walls: &Vec<Cardinal>, side: Cardinal) -> (kept: Vec<Cardinal>)
    ensures
        kept@ == without(walls@, side),
{
    let mut kept: Vec<Cardinal> = Vec::new();
    let mut i: usize = 0;
    while i < walls.len()
        invariant
            i <= walls@.len(),
            kept@ == without(walls@.take(i as int), side),
        decreases walls@.len() - i,
    {
        proof {
            reveal(Seq::filter);
            assert(walls@.take(i + 1).drop_last() =~= walls@.take(i as int));
        }
        if walls[i] != side {
            kept.push(walls[i]);
        }
        i += 1;
    }
    proof {
        assert(walls@.take(walls@.len() as int) =~= walls@);
    }
    kept
}

/// A maze on a grid of `width` by `height` cells: for every cell, by its
/// position in the grid's cell list, the walls that stand around it.
pub struct Maze {
    pub width: usize,
    pub height: usize,
    pub walls: Vec<Vec<Cardinal>>,
}

impl Maze {
    /// Returns the wall map of the grid once the passages of the edges have
    /// been opened: every cell starts with its four walls.
    pub fn wall_edges(&self, grid: Gridlike, edges: Vec<Edge>) -> (edge_walls: Vec<Vec<Cardinal>>)
        ensures
            edge_walls.deep_view() == walls_after(
                Seq::new(
                    (grid.width_spec() * grid.height_spec()) as nat,
                    |i: int| all_walls(),
                ),
                lattice_nodes(grid.width_spec(), grid.height_spec()),
                edges@,
            ),
    {
        let mut edge_walls: Vec<Vec<Cardinal>> = Vec::new();
        let cells = grid.len();
        let mut i: usize = 0;
        while i < cells
            invariant
                i <= cells,
                edge_walls@.len() == i,
                forall|k: int| 0 <= k < i ==> (#[trigger] edge_walls@[k])@ == all_walls(),
            decreases cells - i,
        {
            let mut walls: Vec<Cardinal> = Vec::new();
            walls.push(Cardinal::North);
            walls.push(Cardinal::East);
            walls.push(Cardinal::South);
            walls.push(Cardinal::West);
            assert(walls@ =~= all_walls());
            edge_walls.push(walls);
            i += 1;
        }
        proof {
            lemma_rows_of_walls(&edge_walls);
            assert(edge_walls.deep_view() =~= Seq::new(cells as nat, |i: int| all_walls()));
        }
        self.remove_walls(edges, &mut edge_walls, &grid);
        edge_walls
    }

    /// Opens the passages of the edges in the wall map, one after the other.
    pub fn remove_walls(&self, edges: Vec<Edge>, edge_walls: &mut Vec<Vec<Cardinal>>, grid: &Gridlike)
        ensures
            final(edge_walls).deep_view() == walls_after(
                old(edge_walls).deep_view(),
                lattice_nodes(grid.width_spec(), grid.height_spec()),
                edges@,
            ),
    {
        let cells = grid.nodes();
        let mut k: usize = 0;
        while k < edges.len()
            invariant
                k <= edges@.len(),
                cells@ == lattice_nodes(grid.width_spec(), grid.height_spec()),
                edge_walls.deep_view() == walls_after(
                    old(edge_walls).deep_view(),
                    cells@,
                    edges@.take(k as int),
                ),
            decreases edges@.len() - k,
        {
            proof {
                assert(edges@.take(k + 1).drop_last() =~= edges@.take(k as int));
                lemma_rows_of_walls(edge_walls);
            }
            let ghost before = edge_walls.deep_view();
            let edge = edges[k];
            if edge.origin < cells.len() && edge.destination < cells.len() {
                let origin = cells[edge.origin];
                let destination = cells[edge.destination];
                match origin.cardinal_adjacency(destination) {
                    Some(cardinal) => {
                        if edge.origin < edge_walls.len() {
                            let kept = remaining(&edge_walls[edge.origin], cardinal);
                            edge_walls.set(edge.origin, kept);
                        }
                        proof {
                            lemma_rows_of_walls(edge_walls);
                        }
                        let ghost first = edge_walls.deep_view();
                        assert(first =~= if edge.origin < before.len() {
                            before.update(
                                edge.origin as int,
                                without(before[edge.origin as int], cardinal),
                            )
                        } else {
                            before
                        });
                        if edge.destination < edge_walls.len() {
                            let kept = remaining(
                                &edge_walls[edge.destination],
                                cardinal.opposite(),
                            );
                            edge_walls.set(edge.destination, kept);
                        }
                        proof {
                            lemma_rows_of_walls(edge_walls);
                            assert(edge_walls.deep_view() =~= opened(before, cells@, edge));
                        }
                    },
                    None => {},
                }
            }
            k += 1;
        }
        proof {
            assert(edges@.take(edges@.len() as int) =~= edges@);
        }
    }
}

} // verus!
