use mazegen::bheap::{BinaryHeap, PriorityQueue};
use mazegen::graph::Edge;

fn heap_of(costs: &[u64]) -> BinaryHeap<u64> {
    let mut heap = BinaryHeap::with_capacity(costs.len());
    for c in costs {
        heap.insert(*c);
    }
    heap
}

fn drain(heap: &mut BinaryHeap<u64>) -> Vec<u64> {
    let mut out = Vec::new();
    while let Some(c) = heap.poll() {
        out.push(c);
    }
    out
}

fn in_heap_order(heap: &[u64]) -> bool {
    (1..heap.len()).all(|k| heap[(k - 1) / 2] <= heap[k])
}

#[test]
fn poll_returns_costs_in_ascending_order() {
    let mut heap = heap_of(&[5, 3, 8, 1, 4]);
    assert_eq!(drain(&mut heap), vec![1, 3, 4, 5, 8]);
    assert!(heap.heap.is_empty());
}

#[test]
fn poll_returns_edges_cheapest_first() {
    let mut heap: BinaryHeap<Edge> = BinaryHeap::with_capacity(0);
    for (i, cost) in [5u8, 3, 8, 1, 4].iter().enumerate() {
        heap.insert(Edge { origin: i, destination: i + 1, cost: *cost });
    }
    let mut costs = Vec::new();
    let mut origins = Vec::new();
    while let Some(edge) = heap.lowest_cost_edge() {
        costs.push(edge.cost);
        origins.push(edge.origin);
    }
    assert_eq!(costs, vec![1, 3, 4, 5, 8]);
    assert_eq!(origins, vec![3, 1, 4, 0, 2]);
}

#[test]
fn insert_sifts_the_new_element_up() {
    let heap = heap_of(&[5, 3, 8, 1, 4]);
    assert_eq!(heap.heap, vec![1, 3, 8, 5, 4]);
}

#[test]
fn empty_heap_has_nothing_to_return() {
    let mut heap: BinaryHeap<u64> = BinaryHeap::with_capacity(4);
    assert_eq!(heap.poll(), None);
    assert_eq!(heap.remove_at(0), None);
    assert_eq!(heap.remove_at(3), None);
    assert!(heap.heap.is_empty());
}

#[test]
fn remove_at_outside_the_heap_changes_nothing() {
    let mut heap = heap_of(&[2, 7, 4]);
    assert_eq!(heap.remove_at(3), None);
    assert_eq!(heap.heap, vec![2, 7, 4]);
}

#[test]
fn remove_at_takes_the_element_out_and_sifts_down() {
    let mut heap = heap_of(&[1, 2, 3, 4, 5, 6, 7]);
    assert_eq!(heap.heap, vec![1, 2, 3, 4, 5, 6, 7]);
    assert_eq!(heap.remove_at(1), Some(2));
    assert_eq!(heap.heap, vec![1, 4, 3, 7, 5, 6]);
}

#[test]
fn remove_at_sifts_up_where_sinking_moves_nothing() {
    let mut heap = BinaryHeap { heap: vec![1u64, 10, 2, 11, 12, 3, 4] };
    assert_eq!(heap.remove_at(3), Some(11));
    assert_eq!(heap.heap, vec![1, 4, 2, 10, 12, 3]);
}

#[test]
fn remove_at_the_last_position_needs_no_repair() {
    let mut heap = heap_of(&[1, 2, 3]);
    assert_eq!(heap.remove_at(2), Some(3));
    assert_eq!(heap.heap, vec![1, 2]);
}

#[test]
fn remove_of_a_non_member_leaves_the_heap_unchanged() {
    let mut heap = heap_of(&[5, 3, 8, 1, 4]);
    let before = heap.heap.clone();
    heap.remove(&7);
    assert_eq!(heap.heap, before);
    assert_eq!(heap.heap.len(), 5);
}

#[test]
fn remove_takes_the_first_match_out() {
    let mut heap = heap_of(&[5, 3, 8, 1, 4]);
    heap.remove(&3);
    assert_eq!(heap.heap, vec![1, 4, 8, 5]);
    assert!(!heap.contains(&3));
    assert_eq!(drain(&mut heap), vec![1, 4, 5, 8]);
}

#[test]
fn remove_finds_edges_by_cost_alone() {
    let mut heap: BinaryHeap<Edge> = BinaryHeap::with_capacity(2);
    heap.insert(Edge { origin: 0, destination: 1, cost: 9 });
    heap.insert(Edge { origin: 2, destination: 3, cost: 4 });
    let probe = Edge { origin: 7, destination: 7, cost: 9 };
    assert!(heap.contains(&probe));
    heap.remove(&probe);
    assert_eq!(heap.heap.len(), 1);
    assert_eq!(heap.heap[0].origin, 2);
    assert!(!heap.contains(&probe));
}

#[test]
fn contains_tells_members_from_others() {
    let heap = heap_of(&[5, 3, 8]);
    assert!(heap.contains(&8));
    assert!(heap.contains(&3));
    assert!(!heap.contains(&4));
    let empty: BinaryHeap<u64> = BinaryHeap::with_capacity(0);
    assert!(!empty.contains(&0));
}

#[test]
fn equal_costs_never_collapse() {
    let mut heap = heap_of(&[4, 4, 4, 2, 2]);
    assert_eq!(heap.heap.len(), 5);
    assert_eq!(drain(&mut heap), vec![2, 2, 4, 4, 4]);
}

#[test]
fn heap_grows_beyond_its_first_capacity() {
    let mut heap: BinaryHeap<u64> = BinaryHeap::with_capacity(1);
    for c in (0..100u64).rev() {
        heap.insert(c);
    }
    assert_eq!(heap.heap.len(), 100);
    assert_eq!(drain(&mut heap), (0..100u64).collect::<Vec<u64>>());
}

#[test]
fn swap_exchanges_two_elements() {
    let mut heap = BinaryHeap { heap: vec![10u64, 20, 30, 40] };
    heap.swap(0, 2);
    assert_eq!(heap.heap, vec![30, 20, 10, 40]);
    heap.swap(3, 3);
    assert_eq!(heap.heap, vec![30, 20, 10, 40]);
}

#[test]
fn swim_moves_a_small_element_to_its_place() {
    let mut heap = BinaryHeap { heap: vec![1u64, 5, 3, 9, 0] };
    assert_eq!(heap.swim(4), 0);
    assert_eq!(heap.heap, vec![0, 1, 3, 9, 5]);
    assert_eq!(heap.swim(3), 3);
    assert_eq!(heap.heap, vec![0, 1, 3, 9, 5]);
    assert_eq!(heap.swim(0), 0);
    assert_eq!(heap.swim(17), 17);
    assert_eq!(heap.heap, vec![0, 1, 3, 9, 5]);
}

#[test]
fn swim_stops_at_an_equal_parent() {
    let mut heap = BinaryHeap { heap: vec![2u64, 2, 2] };
    assert_eq!(heap.swim(2), 2);
    assert_eq!(heap.heap, vec![2, 2, 2]);
}

#[test]
fn sink_moves_a_large_element_to_its_place() {
    let mut heap = BinaryHeap { heap: vec![9u64, 2, 3, 4, 5] };
    assert_eq!(heap.sink(0), 3);
    assert_eq!(heap.heap, vec![2, 4, 3, 9, 5]);
    assert_eq!(heap.sink(2), 2);
    assert_eq!(heap.sink(40), 40);
    assert_eq!(heap.heap, vec![2, 4, 3, 9, 5]);
}

#[test]
fn sink_prefers_the_left_child_among_equals() {
    let mut heap = BinaryHeap { heap: vec![9u64, 2, 2] };
    assert_eq!(heap.sink(0), 1);
    assert_eq!(heap.heap, vec![2, 9, 2]);
    let mut other = BinaryHeap { heap: vec![9u64, 3, 2] };
    assert_eq!(other.sink(0), 2);
    assert_eq!(other.heap, vec![2, 3, 9]);
}

#[test]
fn heap_order_holds_after_every_operation() {
    let mut state: u64 = 0x2545_f491_4f6c_dd1d;
    let mut heap: BinaryHeap<u64> = BinaryHeap::with_capacity(0);
    let mut size: usize = 0;
    for round in 0..2000u32 {
        state ^= state << 13;
        state ^= state >> 7;
        state ^= state << 17;
        let choice = state % 4;
        if choice < 2 {
            heap.insert((state >> 8) % 50);
            size += 1;
        } else if choice == 2 {
            let least = heap.heap.iter().min().copied();
            assert_eq!(heap.poll(), least);
            size = size.saturating_sub(1);
        } else {
            let at = ((state >> 16) % 8) as usize;
            let expected = heap.heap.get(at).copied();
            assert_eq!(heap.remove_at(at), expected);
            if expected.is_some() {
                size -= 1;
            }
        }
        assert_eq!(heap.heap.len(), size, "round {}", round);
        assert!(in_heap_order(&heap.heap), "round {}", round);
    }
    let rest = drain(&mut heap);
    assert_eq!(rest.len(), size);
    assert!(rest.windows(2).all(|w| w[0] <= w[1]));
}
