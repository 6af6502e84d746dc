use dsu_graph::graph::Graph;

fn collect_adjacency(graph: &Graph, u: usize) -> Vec<(usize, usize)> {
    let mut pairs = Vec::new();
    let mut it = graph.get_adjacency_list(u);
    while let Some(pair) = it.next() {
        pairs.push(pair);
    }
    pairs
}

#[test]
fn new_graph_has_fixed_vertices_and_no_edges() {
    let graph = Graph::new(7, 3);
    assert_eq!(graph.get_num_vertices(), 7);
    assert_eq!(graph.get_num_edges(), 0);
}

#[test]
fn vertex_without_edges_has_empty_adjacency() {
    let mut graph = Graph::new(4, 2);
    let mut it = graph.get_adjacency_list(2);
    assert_eq!(it.next(), None);
    graph.add_directed_edge((0, 2));
    assert_eq!(collect_adjacency(&graph, 2), vec![]);
    assert_eq!(collect_adjacency(&graph, 3), vec![]);
}

#[test]
fn directed_edges_count_one_each() {
    let mut graph = Graph::new(5, 4);
    graph.add_directed_edge((0, 1));
    assert_eq!(graph.get_num_edges(), 1);
    graph.add_directed_edge((1, 2));
    graph.add_directed_edge((2, 0));
    assert_eq!(graph.get_num_edges(), 3);
}

#[test]
fn undirected_edges_count_two_each() {
    let mut graph = Graph::new(5, 4);
    graph.add_undirected_edge((0, 1));
    assert_eq!(graph.get_num_edges(), 2);
    graph.add_undirected_edge((3, 4));
    assert_eq!(graph.get_num_edges(), 4);
}

#[test]
fn adjacency_yields_reverse_insertion_order() {
    let edges: Vec<(usize, usize)> = vec![(0, 1), (0, 2), (1, 3), (4, 8), (5, 6), (5, 7)];
    let mut graph = Graph::new(10, 15);
    for (i, &edge) in edges.iter().enumerate() {
        if i % 2 == 0 {
            graph.add_directed_edge(edge);
        } else {
            graph.add_undirected_edge(edge);
        }
    }
    assert_eq!(graph.get_num_edges(), 9);
    assert_eq!(collect_adjacency(&graph, 0), vec![(1, 2), (0, 1)]);
    assert_eq!(collect_adjacency(&graph, 2), vec![(2, 0)]);
    assert_eq!(collect_adjacency(&graph, 1), vec![(3, 3)]);
    assert_eq!(collect_adjacency(&graph, 4), vec![(4, 8)]);
    assert_eq!(collect_adjacency(&graph, 8), vec![(5, 4)]);
    assert_eq!(collect_adjacency(&graph, 5), vec![(7, 7), (6, 6)]);
    assert_eq!(collect_adjacency(&graph, 7), vec![(8, 5)]);
}

#[test]
fn enumerated_pairs_match_recorded_destinations() {
    let edges: Vec<(usize, usize)> = vec![(0, 1), (0, 2), (1, 3), (4, 8), (5, 6), (5, 7)];
    let mut graph = Graph::new(10, 15);
    for (i, &edge) in edges.iter().enumerate() {
        if i % 2 == 0 {
            graph.add_directed_edge(edge);
        } else {
            graph.add_undirected_edge(edge);
        }
    }
    for u in 0..10 {
        for (edge, vertex) in collect_adjacency(&graph, u) {
            assert!(edge < graph.get_num_edges());
            assert_eq!(graph.get_edge_destination(edge), vertex);
        }
    }
}

#[test]
fn boolean_satistfiability_adds_both_implications() {
    let mut graph = Graph::new(10, 4);
    graph.boolean_satistfiability(2, 4);
    assert_eq!(graph.get_num_edges(), 2);
    // clause "2 or 4": edges (2^1 = 3) -> 4 and (4^1 = 5) -> 2
    assert_eq!(collect_adjacency(&graph, 3), vec![(0, 4)]);
    assert_eq!(collect_adjacency(&graph, 5), vec![(1, 2)]);
    graph.boolean_satistfiability(3, 0);
    assert_eq!(graph.get_num_edges(), 4);
    // clause "3 or 0": edges (3^1 = 2) -> 0 and (0^1 = 1) -> 3
    assert_eq!(collect_adjacency(&graph, 2), vec![(2, 0)]);
    assert_eq!(collect_adjacency(&graph, 1), vec![(3, 3)]);
}

#[test]
fn undirected_self_loop_yields_two_entries() {
    let mut graph = Graph::new(3, 2);
    graph.add_undirected_edge((1, 1));
    assert_eq!(graph.get_num_edges(), 2);
    assert_eq!(collect_adjacency(&graph, 1), vec![(1, 1), (0, 1)]);
}

#[test]
fn exhausted_cursor_stays_exhausted() {
    let mut graph = Graph::new(3, 2);
    graph.add_directed_edge((0, 1));
    let mut it = graph.get_adjacency_list(0);
    assert_eq!(it.next(), Some((0, 1)));
    assert_eq!(it.next(), None);
    assert_eq!(it.next(), None);
}

#[test]
fn unchecked_destination_is_stored_as_given() {
    let mut graph = Graph::new(2, 1);
    graph.add_directed_edge((0, 9));
    assert_eq!(collect_adjacency(&graph, 0), vec![(0, 9)]);
    assert_eq!(graph.get_edge_destination(0), 9);
}
