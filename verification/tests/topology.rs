use circuit_lab::topology::{circuit_topology, Pair};

fn pair(in_node: usize, out_node: usize, element_index: usize) -> Pair {
    Pair { in_node, out_node, good: false, element_index }
}

#[test]
fn a_loop_of_three_elements() {
    let ends = vec![(0, 1), (1, 2), (2, 0)];
    let (nodes, pairs) = circuit_topology(&ends, false).expect("a joined element");
    assert_eq!(nodes, vec![0, 1, 2]);
    assert_eq!(pairs, vec![pair(0, 1, 0), pair(0, 2, 2), pair(2, 1, 1)]);
}

#[test]
fn a_dangling_element_is_pruned() {
    let ends = vec![(0, 1), (1, 2), (2, 0), (2, 5)];
    let (nodes, pairs) = circuit_topology(&ends, false).expect("a joined element");
    assert_eq!(nodes, vec![0, 1, 2]);
    assert_eq!(pairs, vec![pair(0, 1, 0), pair(0, 2, 2), pair(2, 1, 1)]);
}

#[test]
fn the_walk_starts_at_the_first_element_joined_at_both_ends() {
    let ends = vec![(7, 0), (0, 1), (1, 2), (2, 0)];
    let (nodes, pairs) = circuit_topology(&ends, false).expect("a joined element");
    assert_eq!(nodes, vec![0, 1, 2]);
    assert_eq!(pairs, vec![pair(0, 1, 1), pair(0, 2, 3), pair(2, 1, 2)]);
}

#[test]
fn a_loop_of_four_elements() {
    let ends = vec![(0, 1), (1, 2), (2, 3), (3, 0)];
    let (nodes, pairs) = circuit_topology(&ends, false).expect("a joined element");
    assert_eq!(nodes, vec![0, 1, 2, 3]);
    assert_eq!(pairs, vec![pair(0, 1, 0), pair(0, 3, 3), pair(3, 2, 2), pair(2, 1, 1)]);
    // One pair per element, each between the two ends of its element.
    for p in &pairs {
        let (a, b) = ends[p.element_index];
        assert!((p.in_node, p.out_node) == (a, b) || (p.in_node, p.out_node) == (b, a));
    }
}

#[test]
fn no_element_joined_at_both_ends_gives_nothing() {
    assert!(circuit_topology(&vec![(0, 1)], false).is_none());
    assert!(circuit_topology(&vec![(0, 1), (1, 2)], false).is_none());
}

#[test]
fn a_discovered_first_element_gives_an_empty_topology() {
    let ends = vec![(0, 1), (1, 2), (2, 0)];
    assert_eq!(circuit_topology(&ends, true), Some((vec![], vec![])));
}
