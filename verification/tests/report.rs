use nfs::{dijkstra, flow, summarize, try_flow, Graph, UNREACHED};

#[test]
fn flow_of_the_example() {
    let mut graph = Graph::new(3);
    graph.link(0, 1, 200);
    graph.link(1, 2, 350);
    graph.link(0, 2, 500);
    graph.link(1, 2, 600);
    assert_eq!(flow(&graph), vec![(500, 2), (350, 2), (500, 2)]);
}

#[test]
fn flow_of_the_triangle() {
    let mut graph = Graph::new(3);
    graph.link(0, 1, 100);
    graph.link(1, 2, 100);
    graph.link(0, 2, 300);
    assert_eq!(flow(&graph)[0], (200, 2));
}

#[test]
fn flow_of_an_empty_graph_is_empty() {
    let graph = Graph::new(0);
    assert_eq!(flow(&graph), Vec::<(usize, usize)>::new());
    assert_eq!(try_flow(&graph), Some(Vec::new()));
}

#[test]
fn an_isolated_node_reaches_nothing() {
    let single = Graph::new(1);
    assert_eq!(flow(&single), vec![(0, 0)]);

    let mut graph = Graph::new(3);
    graph.link(0, 2, 9);
    assert_eq!(flow(&graph), vec![(9, 1), (0, 0), (9, 1)]);
}

#[test]
fn a_node_reaches_fewer_nodes_than_there_are() {
    let mut graph = Graph::new(5);
    graph.link(0, 1, 1);
    graph.link(1, 2, 2);
    graph.link(2, 3, 3);
    graph.link(3, 4, 4);
    graph.link(4, 0, 5);
    let report = flow(&graph);
    assert_eq!(report.len(), 5);
    for (_, nodes) in &report {
        assert!(*nodes <= 4);
    }
    assert_eq!(report[0], (6, 4));
}

#[test]
fn a_node_at_distance_zero_is_not_counted() {
    let mut graph = Graph::new(3);
    graph.link(0, 1, 0);
    graph.link(1, 2, 4);
    assert_eq!(flow(&graph), vec![(4, 1), (4, 1), (4, 2)]);
}

#[test]
fn summarize_skips_zero_and_the_mark() {
    assert_eq!(summarize(vec![0, 5, UNREACHED, 3]), (5, 2));
    assert_eq!(summarize(vec![0, UNREACHED, UNREACHED]), (0, 0));
    assert_eq!(summarize(vec![]), (0, 0));
    assert_eq!(summarize(vec![7]), (7, 1));
    assert_eq!(summarize(vec![UNREACHED - 1, 1]), (UNREACHED - 1, 2));
}

#[test]
fn summarize_agrees_with_the_distances() {
    let mut graph = Graph::new(4);
    graph.link(0, 1, 5);
    graph.link(1, 2, 7);
    let report = flow(&graph);
    for src in 0..4 {
        assert_eq!(report[src], summarize(dijkstra(&graph, src)));
    }
    assert_eq!(report, vec![(12, 2), (7, 2), (12, 2), (0, 0)]);
}

#[test]
fn try_flow_is_flow_where_the_costs_fit() {
    let mut graph = Graph::new(3);
    graph.link(0, 1, 200);
    graph.link(1, 2, 350);
    assert_eq!(try_flow(&graph), Some(flow(&graph)));
    assert_eq!(try_flow(&graph), Some(vec![(550, 2), (350, 2), (550, 2)]));
}

#[test]
fn try_flow_gives_up_on_a_cost_that_does_not_fit() {
    let mut graph = Graph::new(3);
    graph.link(0, 1, 1);
    graph.link(1, 2, usize::MAX);
    assert_eq!(try_flow(&graph), None);
}

#[test]
fn the_greatest_distance_is_zero_where_nothing_is_counted() {
    let mut graph = Graph::new(5);
    graph.link(0, 1, 0);
    graph.link(2, 3, 6);
    let report = flow(&graph);
    assert_eq!(report, vec![(0, 0), (0, 0), (6, 1), (6, 1), (0, 0)]);
    for (time, nodes) in &report {
        assert_eq!(*time == 0, *nodes == 0);
        assert!(*time < UNREACHED);
    }
}
