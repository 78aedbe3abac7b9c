use mazegen::graph::{nodes, Cardinal, Edge, Gridlike, Node};

const ALL: [Cardinal; 4] = [Cardinal::North, Cardinal::East, Cardinal::South, Cardinal::West];

#[test]
fn opposite_of_opposite_is_the_direction_itself() {
    for d in ALL {
        assert_eq!(d.opposite().opposite(), d);
        assert_ne!(d.opposite(), d);
    }
}

#[test]
fn opposite_pairs_north_with_south_and_east_with_west() {
    assert_eq!(Cardinal::North.opposite(), Cardinal::South);
    assert_eq!(Cardinal::South.opposite(), Cardinal::North);
    assert_eq!(Cardinal::East.opposite(), Cardinal::West);
    assert_eq!(Cardinal::West.opposite(), Cardinal::East);
}

#[test]
fn steps_from_an_inner_cell() {
    let n = Node { x: 1, y: 1 };
    assert_eq!(n.north(), Some(Node { x: 1, y: 0 }));
    assert_eq!(n.east(3), Some(Node { x: 2, y: 1 }));
    assert_eq!(n.south(3), Some(Node { x: 1, y: 2 }));
    assert_eq!(n.west(), Some(Node { x: 0, y: 1 }));
}

#[test]
fn steps_stop_at_the_border() {
    let corner = Node { x: 0, y: 0 };
    assert_eq!(corner.north(), None);
    assert_eq!(corner.west(), None);
    let far = Node { x: 2, y: 4 };
    assert_eq!(far.east(3), None);
    assert_eq!(far.south(5), None);
    assert_eq!(far.east(4), Some(Node { x: 3, y: 4 }));
    assert_eq!(far.south(6), Some(Node { x: 2, y: 5 }));
}

#[test]
fn steps_in_a_grid_without_cells_lead_nowhere() {
    let n = Node { x: 0, y: 0 };
    assert_eq!(n.east(0), None);
    assert_eq!(n.south(0), None);
    assert_eq!(Node { x: 7, y: 7 }.east(3), None);
    assert_eq!(Node { x: usize::MAX, y: usize::MAX }.east(usize::MAX), None);
    assert_eq!(Node { x: usize::MAX, y: usize::MAX }.south(usize::MAX), None);
}

#[test]
fn all_adjacent_lists_north_east_south_west() {
    let inner = Node { x: 1, y: 1 };
    assert_eq!(
        inner.all_adjacent(3, 3),
        vec![Node { x: 1, y: 0 }, Node { x: 2, y: 1 }, Node { x: 1, y: 2 }, Node { x: 0, y: 1 }]
    );
    let corner = Node { x: 0, y: 0 };
    assert_eq!(corner.all_adjacent(3, 3), vec![Node { x: 1, y: 0 }, Node { x: 0, y: 1 }]);
    let side = Node { x: 2, y: 1 };
    assert_eq!(
        side.all_adjacent(3, 3),
        vec![Node { x: 2, y: 0 }, Node { x: 2, y: 2 }, Node { x: 1, y: 1 }]
    );
    assert_eq!(corner.all_adjacent(1, 1), vec![]);
}

#[test]
fn cardinal_adjacency_names_the_side_of_the_neighbour() {
    let n = Node { x: 1, y: 1 };
    assert_eq!(n.cardinal_adjacency(Node { x: 1, y: 0 }), Some(Cardinal::North));
    assert_eq!(n.cardinal_adjacency(Node { x: 2, y: 1 }), Some(Cardinal::East));
    assert_eq!(n.cardinal_adjacency(Node { x: 1, y: 2 }), Some(Cardinal::South));
    assert_eq!(n.cardinal_adjacency(Node { x: 0, y: 1 }), Some(Cardinal::West));
    assert_eq!(n.cardinal_adjacency(n), None);
    assert_eq!(n.cardinal_adjacency(Node { x: 2, y: 2 }), None);
    assert_eq!(n.cardinal_adjacency(Node { x: 3, y: 1 }), None);
    let last = Node { x: usize::MAX, y: usize::MAX };
    assert_eq!(last.cardinal_adjacency(last), None);
    assert_eq!(last.cardinal_adjacency(Node { x: usize::MAX, y: usize::MAX - 1 }), Some(Cardinal::North));
}

#[test]
fn cardinal_adjacency_seen_from_the_other_cell_is_the_opposite() {
    for x in 0..4usize {
        for y in 0..4usize {
            let a = Node { x, y };
            for b in a.all_adjacent(4, 4) {
                let there = a.cardinal_adjacency(b).unwrap();
                assert_eq!(b.cardinal_adjacency(a), Some(there.opposite()));
            }
        }
    }
}

#[test]
fn nodes_lists_the_cells_row_by_row() {
    assert_eq!(
        nodes(3, 2),
        vec![
            Node { x: 0, y: 0 },
            Node { x: 1, y: 0 },
            Node { x: 2, y: 0 },
            Node { x: 0, y: 1 },
            Node { x: 1, y: 1 },
            Node { x: 2, y: 1 },
        ]
    );
    assert_eq!(nodes(0, 5), vec![]);
    assert_eq!(nodes(5, 0), vec![]);
}

#[test]
fn gridlike_knows_its_size_and_cells() {
    let grid = Gridlike::new(3, 2);
    assert_eq!(grid.width(), 3);
    assert_eq!(grid.height(), 2);
    assert_eq!(grid.len(), 6);
    assert_eq!(grid.nodes(), &nodes(3, 2));
    assert_eq!(grid.get_node_at(2, 1), Node { x: 2, y: 1 });
    assert_eq!(grid.get_node_index(&Node { x: 2, y: 1 }), 5);
    for (i, n) in grid.nodes().iter().enumerate() {
        assert_eq!(grid.get_node_index(n), i);
        assert_eq!(grid.get_node_at(n.x, n.y), *n);
        assert_eq!(n.x, i % 3);
        assert_eq!(n.y, i / 3);
    }
}

#[test]
fn adjacency_list_of_a_three_by_two_grid() {
    let grid = Gridlike::new(3, 2);
    let expected: Vec<Vec<usize>> =
        vec![vec![1, 3], vec![2, 4, 0], vec![5, 1], vec![0, 4], vec![1, 5, 3], vec![2, 4]];
    assert_eq!(grid.adjacency_list(), &expected);
}

#[test]
fn adjacency_list_of_a_two_by_three_grid() {
    let grid = Gridlike::new(2, 3);
    let expected: Vec<Vec<usize>> =
        vec![vec![1, 2], vec![3, 0], vec![0, 3, 4], vec![1, 5, 2], vec![2, 5], vec![3, 4]];
    assert_eq!(grid.adjacency_list(), &expected);
}

#[test]
fn adjacency_follows_the_neighbours_of_each_cell() {
    let grid = Gridlike::new(5, 4);
    for (i, n) in grid.nodes().iter().enumerate() {
        let by_cell: Vec<usize> =
            n.all_adjacent(5, 4).iter().map(|m| grid.get_node_index(m)).collect();
        assert_eq!(grid.adjacency_list()[i], by_cell);
        let degree = by_cell.len();
        let on_border = (n.x == 0 || n.x == 4) as usize + (n.y == 0 || n.y == 3) as usize;
        assert_eq!(degree, 4 - on_border);
    }
}

#[test]
fn grids_of_one_line_and_of_nothing() {
    let single = Gridlike::new(1, 1);
    assert_eq!(single.len(), 1);
    assert_eq!(single.adjacency_list(), &vec![Vec::<usize>::new()]);
    let row = Gridlike::new(3, 1);
    assert_eq!(row.adjacency_list(), &vec![vec![1], vec![2, 0], vec![1]]);
    let column = Gridlike::new(1, 3);
    assert_eq!(column.adjacency_list(), &vec![vec![1], vec![0, 2], vec![1]]);
    let none = Gridlike::new(0, 7);
    assert_eq!(none.len(), 0);
    assert!(none.adjacency_list().is_empty());
}

#[test]
fn default_edge_is_all_zero() {
    let e = Edge::default();
    assert_eq!((e.origin, e.destination, e.cost), (0, 0, 0));
}

#[test]
fn edges_are_equal_when_they_cost_the_same() {
    let a = Edge { origin: 0, destination: 1, cost: 7 };
    let b = Edge { origin: 5, destination: 9, cost: 7 };
    let c = Edge { origin: 0, destination: 1, cost: 8 };
    assert!(a == b);
    assert!(a != c);
}

#[test]
fn edges_are_ordered_by_cost_alone() {
    let cheap = Edge { origin: 9, destination: 9, cost: 1 };
    let dear = Edge { origin: 0, destination: 0, cost: 2 };
    let also_dear = Edge { origin: 4, destination: 5, cost: 2 };
    assert!(cheap < dear);
    assert!(dear > cheap);
    assert!(dear <= also_dear && dear >= also_dear);
    assert!(!(dear < also_dear));
    assert_eq!(cheap.partial_cmp(&dear), Some(std::cmp::Ordering::Less));
    assert_eq!(dear.partial_cmp(&also_dear), Some(std::cmp::Ordering::Equal));
    assert_eq!(dear.partial_cmp(&cheap), Some(std::cmp::Ordering::Greater));
}

#[test]
fn a_cloned_grid_is_the_same_grid() {
    let grid = Gridlike::new(4, 3);
    let copy = grid.clone();
    assert_eq!(copy.width(), 4);
    assert_eq!(copy.height(), 3);
    assert_eq!(copy.nodes(), grid.nodes());
    assert_eq!(copy.adjacency_list(), grid.adjacency_list());
}
