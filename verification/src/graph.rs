//! The grid model: directions, cells, weighted edges and the lattice itself.

use crate::heap_order::Prioritized;
use std::cmp::Ordering;
use vstd::prelude::*;
use vstd::std_specs::cmp::{PartialEqSpecImpl, PartialOrdSpecImpl};

verus! {

/// A passage from one cell to a neighbour, with what it costs to take it.
/// Cells are named by their position in the grid's row-major cell list.
///
/// Edges compare by cost alone: two edges are equal when they cost the same,
/// and one is less than another when it costs less. Neither end takes part,
/// so edges of one cost stand for each other in a queue.
#[derive(Debug, Clone, Copy)]
pub struct Edge {
    pub origin: usize,
    pub destination: usize,
    pub cost: u8,
}

impl PartialEq for Edge {
    fn eq(&self, other: &Edge) -> (r: bool) {
        self.cost == other.cost
    }
}

impl PartialEqSpecImpl for Edge {
    open spec fn obeys_eq_spec() -> bool {
        true
    }

    open spec fn eq_spec(&self, other: &Edge) -> bool {
        self.cost == other.cost
    }
}

impl Eq for Edge {

}

impl PartialOrd for Edge {
    fn partial_cmp(&self, other: &Edge) -> (r: Option<Ordering>) {
        if self.cost < other.cost {
            Some(Ordering::Less)
        } else if self.cost == other.cost {
            Some(Ordering::Equal)
        } else {
            Some(Ordering::Greater)
        }
    }
}

impl PartialOrdSpecImpl for Edge {
    open spec fn obeys_partial_cmp_spec() -> bool {
        true
    }

    open spec fn partial_cmp_spec(&self, other: &Edge) -> Option<Ordering> {
        if self.cost < other.cost {
            Some(Ordering::Less)
        } else if self.cost == other.cost {
            Some(Ordering::Equal)
        } else {
            Some(Ordering::Greater)
        }
    }
}

impl Prioritized for Edge {
    open spec fn priority_spec(&self) -> u64 {
        self.cost as u64
    }

    fn priority(&self) -> (p: u64) {
        self.cost as u64
    }

    open spec fn same_spec(&self, other: &Self) -> bool {
        self.cost == other.cost
    }

    fn same(&self, other: &Self) -> (b: bool) {
        self.cost == other.cost
    }
}

impl Edge {
    /// The edge from the first cell to itself, at no cost.
    pub fn default() -> (e: Edge)
        ensures
            e.origin == 0,
            e.destination == 0,
            e.cost == 0,
    {
        Edge { origin: 0, destination: 0, cost: 0 }
    }
}

/// One of the four sides of a cell.
#[derive(Debug, Clone, Copy, PartialEq, Eq, Structural)]
pub enum Cardinal {
    North,
    East,
    South,
    West,
}

impl Cardinal {
    /// The side that faces this one.
    pub open spec fn opposite_spec(self) -> Cardinal {
        match self {
            Cardinal::North => Cardinal::South,
            Cardinal::East => Cardinal::West,
            Cardinal::South => Cardinal::North,
            Cardinal::West => Cardinal::East,
        }
    }

    /// Returns the side that faces this one.
    pub fn opposite(&self) -> (r: Cardinal)
        ensures
            r == self.opposite_spec(),
            r != *self,
    {
        match self {
            Cardinal::North => Cardinal::South,
            Cardinal::East => Cardinal::West,
            Cardinal::South => Cardinal::North,
            Cardinal::West => Cardinal::East,
        }
    }

    /// Turning around twice gives the side one started from.
    pub proof fn lemma_opposite_involution(d: Cardinal)
        ensures
            d.opposite_spec().opposite_spec() == d,
    {
    }
}

/// A cell of the grid: column `x` and row `y`, both counted from zero.
#[derive(Debug, Clone, Copy, PartialEq, Eq, Structural, Hash, PartialOrd, Ord)]
pub struct Node {
    pub x: usize,
    pub y: usize,
}

/// The sequence of the values that are there, in order.
pub open spec fn present<T>(options: Seq<Option<T>>) -> Seq<T>
    decreases options.len(),
{
    if options.len() == 0 {
        Seq::empty()
    } else {
        let front = present(options.drop_last());
        match options.last() {
            Some(v) => front.push(v),
            None => front,
        }
    }
}

impl Node {
    /// The cell one row up, unless this is the top row.
    pub open spec fn north_spec(self) -> Option<Node> {
        if self.y == 0 {
            None
        } else {
            Some(Node { x: self.x, y: (self.y - 1) as usize })
        }
    }

    /// The cell one column to the right, unless this is the last of
    /// `grid_width` columns or lies beyond them.
    pub open spec fn east_spec(self, grid_width: usize) -> Option<Node> {
        if self.x + 1 < grid_width {
            Some(Node { x: (self.x + 1) as usize, y: self.y })
        } else {
            None
        }
    }

    /// The cell one row down, unless this is the last of `grid_height` rows or
    /// lies beyond them.
    pub open spec fn south_spec(self, grid_height: usize) -> Option<Node> {
        if self.y + 1 < grid_height {
            Some(Node { x: self.x, y: (self.y + 1) as usize })
        } else {
            None
        }
    }

    /// The cell one column to the left, unless this is the first column.
    pub open spec fn west_spec(self) -> Option<Node> {
        if self.x == 0 {
            None
        } else {
            Some(Node { x: (self.x - 1) as usize, y: self.y })
        }
    }

    /// On which side of this cell `node` lies, where the two share a side.
    pub open spec fn side_of(self, node: Node) -> Option<Cardinal> {
        if self.x == node.x && self.y == node.y + 1 {
            Some(Cardinal::North)
        } else if self.y == node.y && self.x + 1 == node.x {
            Some(Cardinal::East)
        } else if self.x == node.x && self.y + 1 == node.y {
            Some(Cardinal::South)
        } else if self.y == node.y && self.x == node.x + 1 {
            Some(Cardinal::West)
        } else {
            None
        }
    }

    /// The neighbours inside a grid of the given size: north, east, south,
    /// west, without those that the grid does not have.
    pub open spec fn all_adjacent_spec(self, grid_width: usize, grid_height: usize) -> Seq<Node> {
        present(
            seq![
                self.north_spec(),
                self.east_spec(grid_width),
                self.south_spec(grid_height),
                self.west_spec(),
            ],
        )
    }

    /// Returns the cell one row up, or `None` in the top row.
    pub fn north(&self) -> (r: Option<Node>)
        ensures
            r == self.north_spec(),
    {
        if self.y == 0 {
            None
        } else {
            Some(Node { x: self.x, y: self.y - 1 })
        }
    }

    /// Tells on which side of this cell `node` lies, or `None` where the two
    /// do not share a side.
    pub fn cardinal_adjacency(&self, node: Node) -> (r: Option<Cardinal>)
        ensures
            r == self.side_of(node),
    {
        if self.y != 0 && self.y - 1 == node.y && self.x == node.x {
            return Some(Cardinal::North);
        }
        if node.x != 0 && self.x == node.x - 1 && self.y == node.y {
            return Some(Cardinal::East);
        }
        if node.y != 0 && self.y == node.y - 1 && self.x == node.x {
            return Some(Cardinal::South);
        }
        if self.x != 0 && self.x - 1 == node.x && self.y == node.y {
            return Some(Cardinal::West);
        }
        None
    }

    /// Returns the cell one column to the right, or `None` where the grid of
    /// `grid_width` columns has none there.
    pub fn east(&self, grid_width: usize) -> (r: Option<Node>)
        ensures
            r == self.east_spec(grid_width),
    {
        if grid_width == 0 || self.x >= grid_width - 1 {
            None
        } else {
            Some(Node { x: self.x + 1, y: self.y })
        }
    }

    /// Returns the cell one row down, or `None` where the grid of
    /// `grid_height` rows has none there.
    pub fn south(&self, grid_height: usize) -> (r: Option<Node>)
        ensures
            r == self.south_spec(grid_height),
    {
        if grid_height == 0 || self.y >= grid_height - 1 {
            None
        } else {
            Some(Node { x: self.x, y: self.y + 1 })
        }
    }

    /// Returns the cell one column to the left, or `None` in the first column.
    pub fn west(&self) -> (r: Option<Node>)
        ensures
            r == self.west_spec(),
    {
        if self.x == 0 {
            None
        } else {
            Some(Node { x: self.x - 1, y: self.y })
        }
    }

    /// Returns the neighbours inside a grid of the given size, in the order
    /// north, east, south, west.
    pub fn all_adjacent(&self, grid_width: usize, grid_height: usize) -> (r: Vec<Node>)
        ensures
            r@ == self.all_adjacent_spec(grid_width, grid_height),
    {
        let candidates: [Option<Node>; 4] = [
            self.north(),
            self.east(grid_width),
            self.south(grid_height),
            self.west(),
        ];
        let mut found: Vec<Node> = Vec::new();
        let mut i: usize = 0;
        while i < 4
            invariant
                i <= 4,
                candidates@.len() == 4,
                found@ == present(candidates@.take(i as int)),
            decreases 4 - i,
        {
            proof {
                assert(candidates@.take(i + 1).drop_last() =~= candidates@.take(i as int));
            }
            if let Some(n) = candidates[i] {
                found.push(n);
            }
            i += 1;
        }
        proof {
            assert(candidates@.take(4) =~= candidates@);
            assert(candidates@ =~= seq![
                self.north_spec(),
                self.east_spec(grid_width),
                self.south_spec(grid_height),
                self.west_spec(),
            ]);
        }
        found
    }

    /// A neighbour that one of the four steps reaches lies on the side that
    /// the step is named after, and seen from there this cell lies on the
    /// opposite side.
    pub proof fn lemma_steps_and_sides(a: Node, b: Node, grid_width: usize, grid_height: usize)
        ensures
            a.north_spec() == Some(b) ==> a.side_of(b) == Some(Cardinal::North),
            a.east_spec(grid_width) == Some(b) ==> a.side_of(b) == Some(Cardinal::East),
            a.south_spec(grid_height) == Some(b) ==> a.side_of(b) == Some(Cardinal::South),
            a.west_spec() == Some(b) ==> a.side_of(b) == Some(Cardinal::West),
            forall|d: Cardinal| a.side_of(b) == Some(d) <==> b.side_of(a) == Some(d.opposite_spec()),
    {
    }
}

/// The cell at position `i` of the row-major cell list of a grid that is
/// `width` cells wide.
pub open spec fn lattice_node(width: usize, i: int) -> Node {
    Node { x: (i % (width as int)) as usize, y: (i / (width as int)) as usize }
}

/// The cells of a `width` by `height` grid, row by row.
pub open spec fn lattice_nodes(width: usize, height: usize) -> Seq<Node> {
    Seq::new((width * height) as nat, |i: int| lattice_node(width, i))
}

/// The positions of the cells that share a side with the cell at position
/// `i`: north, east, south, west, without those that the grid does not have.
pub open spec fn lattice_neighbors(width: usize, height: usize, i: int) -> Seq<usize> {
    let x = i % (width as int);
    let y = i / (width as int);
    let north = if y > 0 {
        seq![(i - width) as usize]
    } else {
        Seq::empty()
    };
    let east = if x + 1 < width {
        seq![(i + 1) as usize]
    } else {
        Seq::empty()
    };
    let south = if y + 1 < height {
        seq![(i + width) as usize]
    } else {
        Seq::empty()
    };
    let west = if x > 0 {
        seq![(i - 1) as usize]
    } else {
        Seq::empty()
    };
    north + east + south + west
}

/// For every cell of a `width` by `height` grid, the positions of its
/// neighbours.
pub open spec fn lattice_adjacency(width: usize, height: usize) -> Seq<Seq<usize>> {
    Seq::new((width * height) as nat, |i: int| lattice_neighbors(width, height, i))
}

/// The cell in column `x` of row `y` stands at position `y * width + x`, and
/// that position is inside the grid.
pub proof fn lemma_cell_position(width: usize, height: usize, x: int, y: int)
    requires
        0 <= x < width,
        0 <= y < height,
    ensures
        0 <= y * width + x < width * height,
        (y * width + x) % (width as int) == x,
        (y * width + x) / (width as int) == y,
{
    let w = width as int;
    let h = height as int;
    assert(y * w + w <= h * w) by (nonlinear_arith)
        requires
            0 <= y < h,
            0 < w,
    ;
    assert(0 <= y * w) by (nonlinear_arith)
        requires
            0 <= y,
            0 < w,
    ;
    assert(h * w == w * h) by (nonlinear_arith);
    vstd::arithmetic::div_mod::lemma_fundamental_div_mod_converse(y * w + x, w, y, x);
}

/// The cell at position `i` of a grid lies in a column and a row of the grid,
/// and those two give the position back.
pub proof fn lemma_position_cell(width: usize, height: usize, i: int)
    requires
        0 <= i < width * height,
    ensures
        width > 0,
        0 <= i % (width as int) < width,
        0 <= i / (width as int) < height,
        (i / (width as int)) * width + i % (width as int) == i,
{
    let w = width as int;
    let h = height as int;
    assert(w > 0) by (nonlinear_arith)
        requires
            0 <= i < w * h,
            0 <= w,
    ;
    vstd::arithmetic::div_mod::lemma_fundamental_div_mod(i, w);
    vstd::arithmetic::div_mod::lemma_mod_bound(i, w);
    let q = i / w;
    assert(w * q == q * w) by (nonlinear_arith);
    assert(0 <= q) by (nonlinear_arith)
        requires
            0 <= i,
            0 < w,
            i == q * w + i % w,
            0 <= i % w < w,
    ;
    assert(q < h) by (nonlinear_arith)
        requires
            i < w * h,
            0 < w,
            i == q * w + i % w,
            0 <= i % w < w,
    ;
}

/// The cells of a grid, row by row.
pub fn nodes(width: usize, height: usize) -> (cells: Vec<Node>)
    requires
        width * height <= usize::MAX,
    ensures
        cells@ == lattice_nodes(width, height),
{
    let mut cells: Vec<Node> = Vec::new();
    let mut y: usize = 0;
    while y < height
        invariant
            y <= height,
            width * height <= usize::MAX,
            cells@.len() == y * width,
            forall|i: int| 0 <= i < cells@.len() ==> cells@[i] == lattice_node(width, i),
        decreases height - y,
    {
        let mut x: usize = 0;
        while x < width
            invariant
                x <= width,
                y < height,
                width * height <= usize::MAX,
                cells@.len() == y * width + x,
                forall|i: int| 0 <= i < cells@.len() ==> cells@[i] == lattice_node(width, i),
            decreases width - x,
        {
            proof {
                lemma_cell_position(width, height, x as int, y as int);
            }
            cells.push(Node { x, y });
            x += 1;
        }
        proof {
            assert((y + 1) * width == y * width + width) by (nonlinear_arith);
        }
        y += 1;
    }
    proof {
        assert(y * width == width * height) by (nonlinear_arith)
            requires
                y == height,
        ;
        assert(cells@ =~= lattice_nodes(width, height));
    }
    cells
}

/// A rectangular grid of cells: the cells row by row, and for every cell the
/// positions of the cells that share a side with it.
#[derive(Debug)]
pub struct Gridlike {
    array: Vec<Node>,
    width: usize,
    height: usize,
    adjacency: Vec<Vec<usize>>,
}

impl Clone for Gridlike {
    /// Returns a grid of the same size.
    fn clone(&self) -> (copy: Self)
        ensures
            copy.width_spec() == self.width_spec(),
            copy.height_spec() == self.height_spec(),
    {
        proof {
            use_type_invariant(self);
        }
        Gridlike::new(self.width, self.height)
    }
}

impl Gridlike {
    /// How many cells a row has.
    pub closed spec fn width_spec(&self) -> usize {
        self.width
    }

    /// How many rows the grid has.
    pub closed spec fn height_spec(&self) -> usize {
        self.height
    }

    #[verifier::type_invariant]
    spec fn well_formed(self) -> bool {
        &&& self.width * self.height <= usize::MAX
        &&& self.array@ == lattice_nodes(self.width, self.height)
        &&& self.adjacency.deep_view() == lattice_adjacency(self.width, self.height)
    }

    /// The grid of `width` by `height` cells.
    pub fn new(width: usize, height: usize) -> (grid: Self)
        requires
            width * height <= usize::MAX,
        ensures
            grid.width_spec() == width,
            grid.height_spec() == height,
    {
        let array = nodes(width, height);
        let adjacency = Gridlike::populate_adjacency_list(&array, width, height);
        Gridlike { width, height, array, adjacency }
    }

    /// Returns the number of cells.
    pub fn len(&self) -> (n: usize)
        ensures
            n == self.width_spec() * self.height_spec(),
    {
        proof {
            use_type_invariant(self);
        }
        self.array.len()
    }

    /// Returns how many cells a row has.
    pub fn width(&self) -> (w: usize)
        ensures
            w == self.width_spec(),
    {
        self.width
    }

    /// Returns how many rows the grid has.
    pub fn height(&self) -> (h: usize)
        ensures
            h == self.height_spec(),
    {
        self.height
    }

    /// Returns the cells, row by row.
    pub fn nodes(&self) -> (cells: &Vec<Node>)
        ensures
            cells@ == lattice_nodes(self.width_spec(), self.height_spec()),
            cells@.len() == self.width_spec() * self.height_spec(),
    {
        proof {
            use_type_invariant(self);
        }
        &self.array
    }

    /// Returns the cell in column `x` of row `y`.
    pub fn get_node_at(&self, x: usize, y: usize) -> (cell: Node)
        requires
            x < self.width_spec(),
            y < self.height_spec(),
        ensures
            cell == (Node { x, y }),
    {
        proof {
            use_type_invariant(self);
            lemma_cell_position(self.width, self.height, x as int, y as int);
        }
        self.array[y * self.width + x]
    }

    /// Returns the position of a cell of the grid in the cell list.
    pub fn get_node_index(&self, node: &Node) -> (i: usize)
        requires
            node.x < self.width_spec(),
            node.y < self.height_spec(),
        ensures
            i == node.y * self.width_spec() + node.x,
            i < self.width_spec() * self.height_spec(),
            lattice_node(self.width_spec(), i as int) == *node,
    {
        proof {
            use_type_invariant(self);
            lemma_cell_position(self.width, self.height, node.x as int, node.y as int);
        }
        node.y * self.width + node.x
    }

    /// Returns, for every cell, the positions of its neighbours.
    pub fn adjacency_list(&self) -> (lists: &Vec<Vec<usize>>)
        ensures
            lists.deep_view() == lattice_adjacency(self.width_spec(), self.height_spec()),
            lists@.len() == self.width_spec() * self.height_spec(),
    {
        proof {
            use_type_invariant(self);
            assert(self.adjacency.deep_view().len() == self.adjacency@.len());
        }
        &self.adjacency
    }

    /// The positions of the neighbours of a cell of the grid.
    fn get_node_adjacency_indices(node: &Node, width: usize, height: usize) -> (found: Vec<usize>)
        requires
            width * height <= usize::MAX,
            node.x < width,
            node.y < height,
        ensures
            found@ == lattice_neighbors(width, height, node.y * width + node.x),
    {
        let ghost i = node.y * width + node.x;
        proof {
            lemma_cell_position(width, height, node.x as int, node.y as int);
            if node.y > 0 {
                lemma_cell_position(width, height, node.x as int, node.y - 1);
                assert((node.y - 1) * width + node.x == i - width) by (nonlinear_arith)
                    requires
                        i == node.y * width + node.x,
                ;
            }
            if node.y + 1 < height {
                lemma_cell_position(width, height, node.x as int, node.y + 1);
                assert((node.y + 1) * width + node.x == i + width) by (nonlinear_arith)
                    requires
                        i == node.y * width + node.x,
                ;
            }
        }
        let mut found: Vec<usize> = Vec::new();
        if node.y > 0 {
            found.push((node.y - 1) * width + node.x);
        }
        if node.x < width - 1 {
            found.push(node.y * width + (node.x + 1));
        }
        if node.y < height - 1 {
            found.push((node.y + 1) * width + node.x);
        }
        if node.x > 0 {
            found.push(node.y * width + (node.x - 1));
        }
        proof {
            assert(found@ =~= lattice_neighbors(width, height, i));
        }
        found
    }

    /// For every cell of the list, the positions of its neighbours.
    fn populate_adjacency_list(array: &Vec<Node>, width: usize, height: usize) -> (lists: Vec<
        Vec<usize>,
    >)
        requires
            width * height <= usize::MAX,
            array@ == lattice_nodes(width, height),
        ensures
            lists.deep_view() == lattice_adjacency(width, height),
    {
        let mut lists: Vec<Vec<usize>> = Vec::new();
        let mut i: usize = 0;
        while i < array.len()
            invariant
                i <= array@.len(),
                width * height <= usize::MAX,
                array@ == lattice_nodes(width, height),
                lists@.len() == i,
                forall|k: int| 0 <= k < i ==> (#[trigger] lists@[k])@ == lattice_neighbors(width, height, k),
            decreases array@.len() - i,
        {
            proof {
                lemma_position_cell(width, height, i as int);
            }
            let found = Gridlike::get_node_adjacency_indices(&array[i], width, height);
            lists.push(found);
            i += 1;
        }
        proof {
            assert forall|k: int| 0 <= k < lists@.len() implies #[trigger] lists.deep_view()[k]
                == lattice_neighbors(width, height, k) by {
                assert(lists.deep_view()[k] =~= lists@[k]@);
            }
            assert(lists.deep_view() =~= lattice_adjacency(width, height));
        }
        lists
    }
}

} // verus!
