//! The picture of a maze: the wall map as line segments, and those lines as
//! an SVG document.

use crate::graph::{lemma_cell_position, Cardinal, Node};
use crate::maze::{lemma_rows_of_walls, Maze};
use vstd::prelude::*;

verus! {

/// How long the side of a cell is in the picture.
pub const CELL_SIDE: usize = 10;

/// How wide the lines are drawn.
pub const STROKE_WIDTH: usize = 2;

/// The largest coordinate of the picture. The `svg` crate keeps path
/// coordinates as 32-bit floats, which hold every whole number up to this one
/// exactly.
pub const MAX_COORDINATE: usize = 16_777_216;

/// `svg::node::element::SVG`, the type behind `svg::Document`: an SVG
/// document as the `svg` crate builds it. The library sees nothing inside
/// it.
#[verifier::external_type_specification]
#[verifier::external_body]
pub struct ExDocument(svg::node::element::SVG);

/// The lines that have been added to a document, first to last, each as the
/// point where it begins and the step that it takes from there: what the
/// document holds as its children, one path for every line.
pub uninterp spec fn lines_of(document: svg::node::element::SVG) -> Seq<
    ((usize, usize), (usize, usize)),
>;

/// `Document::new` with `set` for the view box and the style: a new
/// document, which has no child yet, so no line has been added to it.
#[verifier::external_body]
fn blank_document(view_box: (usize, usize, usize, usize), style: &str) -> (document:
    svg::node::element::SVG)
    ensures
        lines_of(document) == Seq::<((usize, usize), (usize, usize))>::empty(),
{
    svg::Document::new().set("viewBox", view_box).set("style", style)
}

/// `Document::add` of a `Path` whose data moves to `from` and draws a line
/// by `by`: `add` appends the path to the document's children, so the
/// document has that line after those it had. The crate turns the four
/// numbers into 32-bit floats; the precondition keeps them where that loses
/// nothing.
#[verifier::external_body]
fn with_line(
    document: svg::node::element::SVG,
    from: (usize, usize),
    by: (usize, usize),
    fill: &str,
    stroke: &str,
    stroke_width: usize,
    ends: &str,
) -> (longer: svg::node::element::SVG)
    requires
        from.0 <= MAX_COORDINATE,
        from.1 <= MAX_COORDINATE,
        by.0 <= MAX_COORDINATE,
        by.1 <= MAX_COORDINATE,
    ensures
        lines_of(longer) == lines_of(document).push((from, by)),
{
    let data = svg::node::element::path::Data::new().move_to(from).line_by(by);
    let path = svg::node::element::Path::new()
        .set("fill", fill)
        .set("stroke", stroke)
        .set("stroke-width", stroke_width)
        .set("stroke-linejoin", ends)
        .set("stroke-linecap", ends)
        .set("d", data);
    document.add(path)
}

/// The line that draws the wall on one side of a cell, if the cell draws it:
/// every cell draws its north and west walls, the cells of the last column
/// their east walls and the cells of the last row their south walls.
pub open spec fn wall_line(width: usize, height: usize, node: Node, wall: Cardinal) -> Option<
    ((usize, usize), (usize, usize)),
> {
    let left = (node.x * CELL_SIDE) as usize;
    let top = (node.y * CELL_SIDE) as usize;
    match wall {
        Cardinal::North => Some(((left, top), (CELL_SIDE, 0usize))),
        Cardinal::East => if node.x + 1 == width {
            Some((((left + CELL_SIDE) as usize, top), (0usize, CELL_SIDE)))
        } else {
            None
        },
        Cardinal::South => if node.y + 1 == height {
            Some(((left, (top + CELL_SIDE) as usize), (CELL_SIDE, 0usize)))
        } else {
            None
        },
        Cardinal::West => Some(((left, top), (0usize, CELL_SIDE))),
    }
}

/// The lines of a cell's walls, in the order of the walls.
pub open spec fn node_lines(width: usize, height: usize, node: Node, walls: Seq<Cardinal>) -> Seq<
    ((usize, usize), (usize, usize)),
>
    decreases walls.len(),
{
    if walls.len() == 0 {
        Seq::empty()
    } else {
        let front = node_lines(width, height, node, walls.drop_last());
        match wall_line(width, height, node, walls.last()) {
            Some(line) => front.push(line),
            None => front,
        }
    }
}

/// The lines of the first `rows` cells of column `x`, top to bottom.
pub open spec fn column_lines(
    width: usize,
    height: usize,
    walls: Seq<Seq<Cardinal>>,
    x: int,
    rows: nat,
) -> Seq<((usize, usize), (usize, usize))>
    decreases rows,
{
    if rows == 0 {
        Seq::empty()
    } else {
        let y = rows - 1;
        column_lines(width, height, walls, x, y as nat) + node_lines(
            width,
            height,
            Node { x: x as usize, y: y as usize },
            walls[y * width + x],
        )
    }
}

/// The lines of the first `columns` columns, left to right.
pub open spec fn maze_lines(
    width: usize,
    height: usize,
    walls: Seq<Seq<Cardinal>>,
    columns: nat,
) -> Seq<((usize, usize), (usize, usize))>
    decreases columns,
{
    if columns == 0 {
        Seq::empty()
    } else {
        let x = columns - 1;
        maze_lines(width, height, walls, x as nat) + column_lines(
            width,
            height,
            walls,
            x,
            height as nat,
        )
    }
}

/// The wall map has a row for every cell, and no coordinate of the picture
/// is beyond the largest.
pub open spec fn drawable(maze: Maze) -> bool {
    &&& maze.walls@.len() == maze.width * maze.height
    &&& maze.width * CELL_SIDE <= MAX_COORDINATE
    &&& maze.height * CELL_SIDE <= MAX_COORDINATE
}

/// No line begins or reaches beyond the largest coordinate.
pub open spec fn within_bounds(lines: Seq<((usize, usize), (usize, usize))>) -> bool {
    forall|i: int|
        0 <= i < lines.len() ==> {
            let (from, by) = #[trigger] lines[i];
            &&& from.0 <= MAX_COORDINATE
            &&& from.1 <= MAX_COORDINATE
            &&& by.0 <= MAX_COORDINATE
            &&& by.1 <= MAX_COORDINATE
        }
}

/// Appends the lines of a cell's walls, in the order of the walls.
pub fn add_node_lines(
    lines: &mut Vec<((usize, usize), (usize, usize))>,
    maze: &Maze,
    node: Node,
    walls: &Vec<Cardinal>,
)
    requires
        node.x * CELL_SIDE + CELL_SIDE <= MAX_COORDINATE,
        node.y * CELL_SIDE + CELL_SIDE <= MAX_COORDINATE,
    ensures
        final(lines)@ == old(lines)@ + node_lines(maze.width, maze.height, node, walls@),
        within_bounds(old(lines)@) ==> within_bounds(final(lines)@),
{
    let left: usize = node.x * CELL_SIDE;
    let top: usize = node.y * CELL_SIDE;
    let mut i: usize = 0;
    while i < walls.len()
        invariant
            i <= walls@.len(),
            left == node.x * CELL_SIDE,
            top == node.y * CELL_SIDE,
            left + CELL_SIDE <= MAX_COORDINATE,
            top + CELL_SIDE <= MAX_COORDINATE,
            within_bounds(old(lines)@) ==> within_bounds(lines@),
            lines@ == old(lines)@ + node_lines(
                maze.width,
                maze.height,
                node,
                walls@.take(i as int),
            ),
        decreases walls@.len() - i,
    {
        proof {
            assert(walls@.take(i + 1).drop_last() =~= walls@.take(i as int));
        }
        match walls[i] {
            Cardinal::North => {
                lines.push(((left, top), (CELL_SIDE, 0)));
            },
            Cardinal::East => {
                if maze.width > 0 && node.x == maze.width - 1 {
                    lines.push(((left + CELL_SIDE, top), (0, CELL_SIDE)));
                }
            },
            Cardinal::South => {
                if maze.height > 0 && node.y == maze.height - 1 {
                    lines.push(((left, top + CELL_SIDE), (CELL_SIDE, 0)));
                }
            },
            Cardinal::West => {
                lines.push(((left, top), (0, CELL_SIDE)));
            },
        }
        proof {
            let next = node_lines(maze.width, maze.height, node, walls@.take(i + 1));
            assert(lines@ =~= old(lines)@ + next);
        }
        i += 1;
    }
    proof {
        assert(walls@.take(walls@.len() as int) =~= walls@);
    }
}

/// Returns the lines of the picture: column by column from the left, in
/// each column cell by cell from the top, for each cell the lines of its
/// walls.
pub fn wall_lines(maze: &Maze) -> (lines: Vec<((usize, usize), (usize, usize))>)
    requires
        drawable(*maze),
    ensures
        lines@ == maze_lines(maze.width, maze.height, maze.walls.deep_view(), maze.width as nat),
        within_bounds(lines@),
{
    let ghost walls = maze.walls.deep_view();
    proof {
        lemma_rows_of_walls(&maze.walls);
    }
    let mut lines: Vec<((usize, usize), (usize, usize))> = Vec::new();
    let mut x: usize = 0;
    while x < maze.width
        invariant
            x <= maze.width,
            drawable(*maze),
            walls == maze.walls.deep_view(),
            forall|i: int| 0 <= i < maze.walls@.len() ==> #[trigger] walls[i] == maze.walls@[i]@,
            lines@ == maze_lines(maze.width, maze.height, walls, x as nat),
            within_bounds(lines@),
        decreases maze.width - x,
    {
        let ghost before = lines@;
        let mut y: usize = 0;
        while y < maze.height
            invariant
                x < maze.width,
                y <= maze.height,
                drawable(*maze),
                forall|i: int| 0 <= i < maze.walls@.len() ==> #[trigger] walls[i] == maze.walls@[i]@,
                lines@ == before + column_lines(maze.width, maze.height, walls, x as int, y as nat),
                within_bounds(lines@),
            decreases maze.height - y,
        {
            proof {
                assert(maze.walls.len() == maze.walls@.len());
                lemma_cell_position(maze.width, maze.height, x as int, y as int);
                assert(0 <= y * maze.width) by (nonlinear_arith)
                    requires
                        0 <= y,
                        0 <= maze.width,
                ;
                assert(x * CELL_SIDE + CELL_SIDE <= maze.width * CELL_SIDE) by (nonlinear_arith)
                    requires
                        x < maze.width,
                ;
                assert(y * CELL_SIDE + CELL_SIDE <= maze.height * CELL_SIDE) by (nonlinear_arith)
                    requires
                        y < maze.height,
                ;
            }
            add_node_lines(&mut lines, maze, Node { x, y }, &maze.walls[y * maze.width + x]);
            proof {
                let column = column_lines(maze.width, maze.height, walls, x as int, y as nat);
                let cell = node_lines(
                    maze.width,
                    maze.height,
                    Node { x, y },
                    walls[y * maze.width + x],
                );
                assert(lines@ =~= before + (column + cell));
            }
            y += 1;
        }
        x += 1;
    }
    lines
}

/// Draws the maze: a document that shows the whole grid on white, with a
/// black line for every wall that `wall_lines` lists, in that order.
pub fn draw(maze: &Maze) -> (document: svg::node::element::SVG)
    requires
        drawable(*maze),
    ensures
        lines_of(document) == maze_lines(
            maze.width,
            maze.height,
            maze.walls.deep_view(),
            maze.width as nat,
        ),
{
    let lines = wall_lines(maze);
    let mut document = blank_document(
        (0, 0, maze.width * CELL_SIDE, maze.height * CELL_SIDE),
        "background-color: white;",
    );
    let mut i: usize = 0;
    while i < lines.len()
        invariant
            i <= lines@.len(),
            within_bounds(lines@),
            lines_of(document) == lines@.take(i as int),
        decreases lines@.len() - i,
    {
        let (from, by) = lines[i];
        document = with_line(document, from, by, "none", "black", STROKE_WIDTH, "square");
        proof {
            assert(lines@.take(i + 1) =~= lines@.take(i as int).push(lines@[i as int]));
        }
        i += 1;
    }
    proof {
        assert(lines@.take(lines@.len() as int) =~= lines@);
    }
    document
}

} // verus!
