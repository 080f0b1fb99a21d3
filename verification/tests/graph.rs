use nfs::Graph;

#[test]
fn a_new_graph_has_no_edges() {
    let graph = Graph::new(3);
    assert_eq!(graph.len(), 3);
    assert!(!graph.is_empty());
    for node in 0..3 {
        assert!(graph.peers(node).is_empty());
    }
}

#[test]
fn a_graph_without_nodes_is_empty() {
    let graph = Graph::new(0);
    assert_eq!(graph.len(), 0);
    assert!(graph.is_empty());
}

#[test]
fn an_edge_is_listed_at_both_ends() {
    let mut graph = Graph::new(3);
    graph.link(0, 2, 17);
    assert_eq!(graph.peers(0).to_vec(), vec![(2, 17)]);
    assert_eq!(graph.peers(2).to_vec(), vec![(0, 17)]);
    assert!(graph.peers(1).is_empty());
    assert_eq!(graph.len(), 3);
}

#[test]
fn peers_come_in_the_order_linked() {
    let mut graph = Graph::new(3);
    graph.link(1, 2, 350);
    graph.link(0, 1, 200);
    graph.link(1, 2, 600);
    assert_eq!(graph.peers(1).to_vec(), vec![(2, 350), (0, 200), (2, 600)]);
    assert_eq!(graph.peers(2).to_vec(), vec![(1, 350), (1, 600)]);
}

#[test]
fn a_self_loop_is_listed_twice() {
    let mut graph = Graph::new(1);
    graph.link(0, 0, 4);
    assert_eq!(graph.peers(0).to_vec(), vec![(0, 4), (0, 4)]);
}
