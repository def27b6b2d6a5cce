use cycles::{Error, Graph, Path};

/// Key order in the adjacency is unspecified, so two graphs are compared as
/// mappings: same keys, and the same path list (in order) under each key.
fn same_graph(a: &Graph, b: &Graph) -> bool {
    a.paths.len() == b.paths.len()
        && a.paths.iter().all(|(k, ps)| {
            b.paths.iter().any(|(k2, ps2)| k2 == k && ps2 == ps)
        })
}

#[test]
fn loop_edge() {
    let edges = vec![(1, 1)];

    assert_eq!(Graph::from_edges(edges), Err(Error::SelfLoop))
}

#[test]
fn duplicate_edge_forward() {
    let edges = vec![(0, 1), (0, 1)];

    assert_eq!(Graph::from_edges(edges), Err(Error::DuplicateEdge))
}

#[test]
fn duplicate_edge_reverse() {
    let edges = vec![(0, 1), (1, 0)];

    assert_eq!(Graph::from_edges(edges), Err(Error::DuplicateEdge))
}

#[test]
fn p3_duplicate_second_reverse() {
    let edges = vec![(0, 1), (1, 2), (2, 1)];

    assert_eq!(Graph::from_edges(edges), Err(Error::DuplicateEdge))
}

#[test]
fn p2() {
    let edges = vec![(0, 1)];

    let expected = Graph { paths: vec![(0, vec![Path::to(1)]), (1, vec![Path::to(0)])] };
    assert!(same_graph(&Graph::from_edges(edges).unwrap(), &expected))
}

#[test]
fn graph_p3() {
    let edges = vec![(0, 1), (1, 2)];

    let expected = Graph {
        paths: vec![
            (0, vec![Path::to(1)]),
            (1, vec![Path::to(0), Path::to(2)]),
            (2, vec![Path::to(1)]),
        ],
    };
    assert!(same_graph(&Graph::from_edges(edges).unwrap(), &expected))
}

#[test]
fn p3_inverted_first() {
    let edges = vec![(1, 0), (1, 2)];

    let expected = Graph {
        paths: vec![
            (0, vec![Path::to(1)]),
            (1, vec![Path::to(0), Path::to(2)]),
            (2, vec![Path::to(1)]),
        ],
    };
    assert!(same_graph(&Graph::from_edges(edges).unwrap(), &expected))
}

#[test]
fn p3_inverted_second() {
    let edges = vec![(0, 1), (2, 1)];

    let expected = Graph {
        paths: vec![
            (0, vec![Path::to(1)]),
            (1, vec![Path::to(0), Path::to(2)]),
            (2, vec![Path::to(1)]),
        ],
    };
    assert!(same_graph(&Graph::from_edges(edges).unwrap(), &expected))
}

#[test]
fn s3() {
    let edges = vec![(0, 1), (1, 2), (1, 3)];

    let expected = Graph {
        paths: vec![
            (0, vec![Path::to(1)]),
            (1, vec![Path::to(0), Path::to(2), Path::to(3)]),
            (2, vec![Path::to(1)]),
            (3, vec![Path::to(1)]),
        ],
    };
    assert!(same_graph(&Graph::from_edges(edges).unwrap(), &expected))
}

#[test]
fn missing_node() {
    let mut graph = Graph { paths: vec![(0, vec![Path::to(1)]), (1, vec![Path::to(0)])] };

    assert_eq!(graph.remove(&2), None)
}

#[test]
fn p3_terminal() {
    let mut graph = Graph {
        paths: vec![
            (0, vec![Path::to(1)]),
            (1, vec![Path::to(0), Path::to(2)]),
            (2, vec![Path::to(1)]),
        ],
    };

    assert_eq!(graph.remove(&0), Some(vec![Path::to(1)]));
    let expected = Graph { paths: vec![(1, vec![Path::to(2)]), (2, vec![Path::to(1)])] };
    assert!(same_graph(&graph, &expected))
}

#[test]
fn p3_internal() {
    let mut graph = Graph {
        paths: vec![
            (0, vec![Path::to(1)]),
            (1, vec![Path::to(0), Path::to(2)]),
            (2, vec![Path::to(1)]),
        ],
    };

    assert_eq!(graph.remove(&1), Some(vec![Path::to(0), Path::to(2)]));
    let expected = Graph {
        paths: vec![
            (0, vec![Path::new(vec![1], 2)]),
            (2, vec![Path::new(vec![1], 0)]),
        ],
    };
    assert!(same_graph(&graph, &expected))
}

#[test]
fn s3_internal() {
    let mut graph = Graph {
        paths: vec![
            (0, vec![Path::to(1)]),
            (1, vec![Path::to(0), Path::to(2), Path::to(3)]),
            (2, vec![Path::to(1)]),
            (3, vec![Path::to(1)]),
        ],
    };

    assert_eq!(graph.remove(&1), Some(vec![Path::to(0), Path::to(2), Path::to(3)]));
    let expected = Graph {
        paths: vec![
            (0, vec![Path::new(vec![1], 2), Path::new(vec![1], 3)]),
            (2, vec![Path::new(vec![1], 0), Path::new(vec![1], 3)]),
            (3, vec![Path::new(vec![1], 0), Path::new(vec![1], 2)]),
        ],
    };
    assert!(same_graph(&graph, &expected))
}

#[test]
fn pre_cycle() {
    let mut graph = Graph {
        paths: vec![
            (0, vec![Path::new(vec![1], 2), Path::to(2)]),
            (2, vec![Path::new(vec![1], 0), Path::to(0)]),
        ],
    };

    assert_eq!(graph.remove(&2), Some(vec![Path::new(vec![1], 0), Path::to(0)]));
    let expected = Graph {
        paths: vec![(0, vec![Path::new(vec![1, 2], 0), Path::new(vec![2, 1], 0)])],
    };
    assert!(same_graph(&graph, &expected))
}
