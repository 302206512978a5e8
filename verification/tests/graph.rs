use sudoku::graph::Graph;

fn path_graph(n: usize) -> Graph<usize> {
    let mut g = Graph::new((0..n).collect(), Vec::new());
    for i in 1..n {
        g.add_edge(i - 1, i);
    }
    g
}

#[test]
fn new_pads_edges_and_keeps_nodes() {
    let g = Graph::new(vec!['a', 'b', 'c'], vec![vec![1], vec![0]]);
    assert_eq!(g.len(), 3);
    assert_eq!(g.nodes(), &['a', 'b', 'c']);
    assert_eq!(g.edges_of(0), &[1]);
    assert_eq!(g.edges_of(2), &[] as &[usize]);
    assert!(!g.is_empty());
}

#[test]
fn add_node_and_edge() {
    let mut g: Graph<u8> = Graph::new(Vec::new(), Vec::new());
    assert!(g.is_empty());
    g.add_node(7);
    g.add_node(9);
    g.add_edge(0, 1);
    assert_eq!(g.edges_of(0), &[1]);
    assert_eq!(g.edges_of(1), &[0]);
}

#[test]
fn connected_components_are_labelled_in_order() {
    let mut g = Graph::new(vec![0, 1, 2, 3, 4], Vec::new());
    g.add_edge(0, 3);
    g.add_edge(1, 4);
    assert_eq!(g.find_connected_components(), vec![0, 1, 2, 0, 1]);
}

#[test]
fn split_renumbers_components() {
    let mut g = Graph::new(vec!['a', 'b', 'c', 'd', 'e'], Vec::new());
    g.add_edge(0, 3);
    g.add_edge(1, 4);
    let parts = g.split_connected_components();
    assert_eq!(parts.len(), 3);
    assert_eq!(parts[0].nodes(), &['a', 'd']);
    assert_eq!(parts[0].edges_of(0), &[1]);
    assert_eq!(parts[1].nodes(), &['b', 'e']);
    assert_eq!(parts[2].nodes(), &['c']);
    assert_eq!(parts[2].edges_of(0), &[] as &[usize]);
}

#[test]
fn split_of_empty_graph_is_itself() {
    let g: Graph<u8> = Graph::new(Vec::new(), Vec::new());
    let parts = g.split_connected_components();
    assert_eq!(parts.len(), 1);
    assert!(parts[0].is_empty());
}

#[test]
fn two_colorize_even_cycle() {
    let mut g = path_graph(4);
    g.add_edge(3, 0);
    assert_eq!(g.two_colorize(), Some((vec![0, 2], vec![1, 3])));
}

#[test]
fn two_colorize_odd_cycle_fails() {
    let mut g = path_graph(3);
    g.add_edge(2, 0);
    assert_eq!(g.two_colorize(), None);
}

#[test]
fn two_colorize_empty_fails() {
    let g: Graph<u8> = Graph::new(Vec::new(), Vec::new());
    assert_eq!(g.two_colorize(), None);
}

#[test]
fn two_colorize_starts_each_component_red() {
    let mut g = Graph::new(vec![0, 1, 2, 3], Vec::new());
    g.add_edge(0, 1);
    g.add_edge(2, 3);
    assert_eq!(g.two_colorize(), Some((vec![0, 2], vec![1, 3])));
}

#[test]
fn shortest_chain_takes_fewest_nodes() {
    let mut g = path_graph(5);
    g.add_edge(0, 4);
    assert_eq!(g.shortest_chain(0, 3), Some(vec![0, 4, 3]));
    assert_eq!(g.shortest_chain(1, 1), Some(vec![1]));
}

#[test]
fn shortest_chain_none_across_components() {
    let mut g = Graph::new(vec![0, 1, 2], Vec::new());
    g.add_edge(0, 1);
    assert_eq!(g.shortest_chain(0, 2), None);
    assert_eq!(g.shortest_chain(0, 7), None);
}

#[test]
fn shortest_chain_prefers_first_neighbour() {
    let mut g = Graph::new(vec![0, 1, 2, 3], Vec::new());
    g.add_edge(0, 2);
    g.add_edge(0, 1);
    g.add_edge(1, 3);
    g.add_edge(2, 3);
    assert_eq!(g.shortest_chain(0, 3), Some(vec![0, 2, 3]));
}

#[test]
fn default_graph_is_empty() {
    let g: Graph<u8> = Graph::default();
    assert!(g.is_empty());
    assert_eq!(g.len(), 0);
}

#[test]
fn shortest_chain_takes_earliest_neighbours() {
    let mut g = Graph::new(vec![0, 1, 2, 3], Vec::new());
    g.add_edge(0, 2);
    g.add_edge(0, 1);
    g.add_edge(1, 3);
    g.add_edge(2, 3);
    assert_eq!(g.shortest_chain(0, 3), Some(vec![0, 2, 3]));
    let mut h = Graph::new(vec![0, 1, 2, 3], Vec::new());
    h.add_edge(0, 1);
    h.add_edge(0, 2);
    h.add_edge(1, 3);
    h.add_edge(2, 3);
    assert_eq!(h.shortest_chain(0, 3), Some(vec![0, 1, 3]));
}
