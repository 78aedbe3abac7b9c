use mazegen::draw::{add_node_lines, draw, wall_lines, CELL_SIDE, STROKE_WIDTH};
use mazegen::graph::{Cardinal, Edge, Gridlike, Node};
use mazegen::maze::Maze;

use Cardinal::{East, North, South, West};

fn two_by_two() -> Maze {
    let mut maze = Maze { width: 2, height: 2, walls: Vec::new() };
    let tree = vec![
        Edge { origin: 0, destination: 1, cost: 1 },
        Edge { origin: 0, destination: 2, cost: 2 },
        Edge { origin: 1, destination: 3, cost: 3 },
    ];
    maze.walls = maze.wall_edges(Gridlike::new(2, 2), tree);
    maze
}

#[test]
fn picture_constants() {
    assert_eq!(CELL_SIDE, 10);
    assert_eq!(STROKE_WIDTH, 2);
}

#[test]
fn inner_cell_draws_its_north_and_west_walls_only() {
    let maze = Maze { width: 3, height: 3, walls: vec![vec![]; 9] };
    let mut lines = vec![((1, 1), (1, 1))];
    add_node_lines(&mut lines, &maze, Node { x: 1, y: 1 }, &vec![North, East, South, West]);
    assert_eq!(lines, vec![((1, 1), (1, 1)), ((10, 10), (10, 0)), ((10, 10), (0, 10))]);
}

#[test]
fn cells_of_the_last_column_and_row_draw_east_and_south_walls() {
    let maze = Maze { width: 3, height: 3, walls: vec![vec![]; 9] };
    let mut lines = Vec::new();
    add_node_lines(&mut lines, &maze, Node { x: 2, y: 2 }, &vec![North, East, South, West]);
    assert_eq!(
        lines,
        vec![((20, 20), (10, 0)), ((30, 20), (0, 10)), ((20, 30), (10, 0)), ((20, 20), (0, 10))]
    );
    let mut east_only = Vec::new();
    add_node_lines(&mut east_only, &maze, Node { x: 2, y: 0 }, &vec![East, South]);
    assert_eq!(east_only, vec![((30, 0), (0, 10))]);
    let mut south_only = Vec::new();
    add_node_lines(&mut south_only, &maze, Node { x: 0, y: 2 }, &vec![South, East]);
    assert_eq!(south_only, vec![((0, 30), (10, 0))]);
}

#[test]
fn wall_lines_go_column_by_column() {
    let maze = two_by_two();
    assert_eq!(
        wall_lines(&maze),
        vec![
            ((0, 0), (10, 0)),
            ((0, 0), (0, 10)),
            ((0, 20), (10, 0)),
            ((0, 10), (0, 10)),
            ((10, 0), (10, 0)),
            ((20, 0), (0, 10)),
            ((20, 10), (0, 10)),
            ((10, 20), (10, 0)),
            ((10, 10), (0, 10)),
        ]
    );
}

#[test]
fn wall_lines_of_a_wide_maze_use_the_width_for_the_rows() {
    let maze = Maze {
        width: 3,
        height: 2,
        walls: vec![vec![North], vec![], vec![East], vec![West], vec![South], vec![]],
    };
    assert_eq!(
        wall_lines(&maze),
        vec![((0, 0), (10, 0)), ((0, 10), (0, 10)), ((10, 20), (10, 0)), ((30, 0), (0, 10))]
    );
}

#[test]
fn maze_without_cells_has_no_lines() {
    let maze = Maze { width: 0, height: 0, walls: vec![] };
    assert!(wall_lines(&maze).is_empty());
    let text = draw(&maze).to_string();
    assert!(text.contains("viewBox=\"0 0 0 0\""));
    assert!(!text.contains("<path"));
}

#[test]
fn document_holds_a_path_for_every_line() {
    let maze = two_by_two();
    let text = draw(&maze).to_string();
    assert!(text.starts_with("<svg"));
    assert!(text.contains("viewBox=\"0 0 20 20\""));
    assert!(text.contains("style=\"background-color: white;\""));
    assert_eq!(text.matches("<path").count(), 9);
    let expected = [
        "M0,0 l10,0",
        "M0,0 l0,10",
        "M0,20 l10,0",
        "M0,10 l0,10",
        "M10,0 l10,0",
        "M20,0 l0,10",
        "M20,10 l0,10",
        "M10,20 l10,0",
        "M10,10 l0,10",
    ];
    let mut at = 0;
    for data in expected {
        let path = format!(
            "<path d=\"{}\" fill=\"none\" stroke=\"black\" stroke-linecap=\"square\" stroke-linejoin=\"square\" stroke-width=\"2\"/>",
            data
        );
        let found = text[at..].find(&path);
        assert!(found.is_some(), "{} is missing or out of order", data);
        at += found.unwrap() + path.len();
    }
}
