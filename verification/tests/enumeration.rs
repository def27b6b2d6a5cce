use std::collections::HashSet;

use cycles::{all_cycles, Cycle, Graph};

fn to_set(cycles: Vec<Vec<u64>>) -> HashSet<Cycle> {
    cycles.into_iter().map(Cycle::new).collect::<HashSet<_>>()
}

#[test]
fn all_cycles_p3() {
    let graph = Graph::from_edges(vec![(0, 1)]).unwrap();

    assert_eq!(all_cycles(graph), Vec::<Vec<u64>>::new())
}

#[test]
fn c3() {
    let graph = Graph::from_edges(vec![(0, 1), (1, 2), (2, 0)]).unwrap();

    assert_eq!(to_set(all_cycles(graph)), HashSet::from([Cycle::new(vec![0, 1, 2])]))
}

#[test]
fn butterfly() {
    let graph =
        Graph::from_edges(vec![(0, 1), (1, 2), (2, 3), (3, 4), (4, 2), (2, 0)]).unwrap();

    assert_eq!(
        to_set(all_cycles(graph)),
        HashSet::from([Cycle::new(vec![0, 1, 2]), Cycle::new(vec![2, 3, 4])])
    )
}

#[test]
fn diamond() {
    let graph = Graph::from_edges(vec![(0, 1), (1, 2), (2, 0), (2, 3), (3, 1)]).unwrap();

    assert_eq!(
        to_set(all_cycles(graph)),
        HashSet::from([
            Cycle::new(vec![0, 1, 2]),
            Cycle::new(vec![1, 2, 3]),
            Cycle::new(vec![0, 1, 3, 2]),
        ])
    )
}

#[test]
fn k4() {
    let graph =
        Graph::from_edges(vec![(0, 1), (1, 2), (2, 3), (3, 0), (0, 2), (1, 3)]).unwrap();

    assert_eq!(
        to_set(all_cycles(graph)),
        HashSet::from([
            Cycle::new(vec![0, 1, 2]),
            Cycle::new(vec![0, 1, 3]),
            Cycle::new(vec![0, 2, 3]),
            Cycle::new(vec![1, 2, 3]),
            Cycle::new(vec![1, 2, 0, 3]),
            Cycle::new(vec![1, 0, 2, 3]),
            Cycle::new(vec![0, 1, 2, 3]),
        ])
    )
}

#[test]
fn k5() {
    let graph = Graph::from_edges(vec![
        (0, 1),
        (1, 2),
        (2, 3),
        (3, 4),
        (4, 0),
        (0, 3),
        (0, 2),
        (1, 3),
        (1, 4),
        (2, 4),
    ])
    .unwrap();

    assert_eq!(all_cycles(graph).len(), 37 * 2)
}

#[test]
fn k5_canonical_count() {
    let graph = Graph::from_edges(vec![
        (0, 1),
        (1, 2),
        (2, 3),
        (3, 4),
        (4, 0),
        (0, 3),
        (0, 2),
        (1, 3),
        (1, 4),
        (2, 4),
    ])
    .unwrap();

    assert_eq!(to_set(all_cycles(graph)).len(), 37)
}

#[test]
fn tree_has_no_cycles() {
    let graph = Graph::from_edges(vec![(0, 1), (1, 2), (1, 3), (3, 4)]).unwrap();

    assert_eq!(all_cycles(graph), Vec::<Vec<u64>>::new())
}

/// Runs the elimination by hand in a caller-chosen node order, collecting
/// the self-referential paths exactly as the driver does.
fn raw_cycles_in_order(edges: Vec<(u64, u64)>, order: &[u64]) -> Vec<Vec<u64>> {
    let mut graph = Graph::from_edges(edges).unwrap();
    let mut raw: Vec<Vec<u64>> = Vec::new();
    for key in order {
        if let Some(paths) = graph.remove(key) {
            for path in paths {
                if path.target == *key {
                    raw.push(path.to_sequence());
                }
            }
        }
    }
    raw
}

fn cycles_in_order(edges: Vec<(u64, u64)>, order: &[u64]) -> HashSet<Cycle> {
    to_set(raw_cycles_in_order(edges, order))
}

#[test]
fn k5_count_order_independent() {
    let edges = vec![
        (0, 1),
        (1, 2),
        (2, 3),
        (3, 4),
        (4, 0),
        (0, 3),
        (0, 2),
        (1, 3),
        (1, 4),
        (2, 4),
    ];
    let orders: Vec<Vec<u64>> =
        vec![vec![0, 1, 2, 3, 4], vec![4, 2, 0, 3, 1], vec![3, 4, 0, 1, 2]];
    let reference = cycles_in_order(edges.clone(), &orders[0]);
    assert_eq!(reference.len(), 37);
    for order in &orders {
        assert_eq!(raw_cycles_in_order(edges.clone(), order).len(), 74);
        assert_eq!(cycles_in_order(edges.clone(), order), reference);
    }
}

#[test]
fn elimination_order_independent() {
    let edges = vec![(0, 1), (1, 2), (2, 3), (3, 4), (4, 2), (2, 0)];
    let orders: Vec<Vec<u64>> = vec![
        vec![0, 1, 2, 3, 4],
        vec![4, 3, 2, 1, 0],
        vec![2, 0, 4, 1, 3],
        vec![1, 3, 0, 4, 2],
    ];
    let reference = cycles_in_order(edges.clone(), &orders[0]);
    assert_eq!(reference.len(), 2);
    for order in &orders {
        assert_eq!(cycles_in_order(edges.clone(), order), reference);
    }
}
