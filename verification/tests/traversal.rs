use nfs::{bfs, dijkstra, hit, try_dijkstra, Graph, UNREACHED};

#[test]
fn test_example() {
    let mut graph = Graph::new(3);
    graph.link(0, 1, 200);
    graph.link(1, 2, 350);
    graph.link(0, 2, 500);
    graph.link(1, 2, 600);

    assert_eq!(dijkstra(&graph, 0), vec![0, 200, 500]);
    assert_eq!(dijkstra(&graph, 1), vec![200, 0, 350]);
    assert_eq!(dijkstra(&graph, 2), vec![500, 350, 0]);
}

#[test]
fn test_simple() {
    /*
         300
      _________
     /         \
    0 --- 1 --- 2
      100   100

    */
    let mut graph = Graph::new(3);
    graph.link(0, 1, 100);
    graph.link(1, 2, 100);
    graph.link(0, 2, 300);

    assert_eq!(dijkstra(&graph, 0), vec![0, 100, 200],)
}

#[test]
fn source_is_at_distance_zero() {
    let mut graph = Graph::new(4);
    graph.link(0, 1, 5);
    graph.link(1, 2, 7);
    graph.link(3, 3, 9);
    for src in 0..4 {
        assert_eq!(dijkstra(&graph, src)[src], 0);
    }
}

#[test]
fn unreached_nodes_keep_the_mark() {
    let mut graph = Graph::new(4);
    graph.link(0, 1, 5);
    graph.link(2, 3, 7);
    assert_eq!(dijkstra(&graph, 0), vec![0, 5, UNREACHED, UNREACHED]);
    assert_eq!(dijkstra(&graph, 3), vec![UNREACHED, UNREACHED, 7, 0]);
}

#[test]
fn reachability_is_symmetric() {
    let mut graph = Graph::new(5);
    graph.link(0, 1, 3);
    graph.link(1, 2, 4);
    graph.link(3, 4, 1);
    let all: Vec<Vec<usize>> = (0..5).map(|src| dijkstra(&graph, src)).collect();
    for a in 0..5 {
        for b in 0..5 {
            assert_eq!(all[a][b] != UNREACHED, all[b][a] != UNREACHED);
        }
    }
    assert!(all[0][2] != UNREACHED);
    assert!(all[0][3] == UNREACHED);
}

#[test]
fn entries_are_expanded_in_the_order_pushed() {
    // the path 0-1-2-3 costs 3, but node 3 is popped at cost 10 before any
    // entry that came over node 2 is, and is not pushed again after that
    let mut graph = Graph::new(4);
    graph.link(0, 1, 1);
    graph.link(1, 2, 1);
    graph.link(2, 3, 1);
    graph.link(0, 3, 10);
    graph.link(0, 2, 10);
    assert_eq!(dijkstra(&graph, 0), vec![0, 1, 2, 10]);
}

#[test]
fn the_result_depends_on_the_order_of_the_edges() {
    // the same edges, linked in another order: node 2 is popped at cost 10
    // before node 1 is, and node 1 does not push it again
    let mut first = Graph::new(4);
    first.link(0, 2, 10);
    first.link(0, 1, 1);
    first.link(1, 2, 1);
    first.link(2, 3, 1);
    first.link(0, 3, 10);
    let mut second = Graph::new(4);
    second.link(0, 1, 1);
    second.link(1, 2, 1);
    second.link(2, 3, 1);
    second.link(0, 3, 10);
    second.link(0, 2, 10);
    assert_eq!(dijkstra(&first, 0), vec![0, 1, 10, 10]);
    assert_eq!(dijkstra(&second, 0), vec![0, 1, 2, 10]);
}

#[test]
fn an_edge_of_weight_zero_costs_nothing() {
    let mut graph = Graph::new(3);
    graph.link(0, 1, 0);
    graph.link(1, 2, 4);
    assert_eq!(dijkstra(&graph, 0), vec![0, 0, 4]);
}

#[test]
fn a_self_loop_changes_nothing() {
    let mut graph = Graph::new(2);
    graph.link(0, 0, 5);
    graph.link(0, 1, 2);
    assert_eq!(dijkstra(&graph, 0), vec![0, 2]);
    assert_eq!(dijkstra(&graph, 1), vec![2, 0]);
}

#[test]
fn hit_keeps_the_lesser_cost() {
    let mut acc = vec![UNREACHED, 7, 3];
    hit(&mut acc, 0, 9);
    assert_eq!(acc, vec![9, 7, 3]);
    hit(&mut acc, 1, 8);
    assert_eq!(acc, vec![9, 7, 3]);
    hit(&mut acc, 2, 1);
    assert_eq!(acc, vec![9, 7, 1]);
    hit(&mut acc, 1, 7);
    assert_eq!(acc, vec![9, 7, 1]);
}

#[test]
fn bfs_lowers_the_costs_it_is_given() {
    let mut graph = Graph::new(3);
    graph.link(0, 1, 100);
    graph.link(1, 2, 100);
    assert_eq!(bfs(&graph, 0, vec![UNREACHED; 3]), Some(vec![0, 100, 200]));
    assert_eq!(bfs(&graph, 0, vec![50, 40, 500]), Some(vec![0, 40, 200]));
}

#[test]
fn bfs_gives_up_on_a_cost_that_does_not_fit() {
    let mut graph = Graph::new(2);
    graph.link(0, 1, usize::MAX);
    // the way back from node 1 would cost twice the weight
    assert_eq!(bfs(&graph, 0, vec![UNREACHED; 2]), None);

    let mut chain = Graph::new(3);
    chain.link(0, 1, usize::MAX / 2);
    chain.link(1, 2, usize::MAX / 2 + 2);
    assert_eq!(bfs(&chain, 0, vec![UNREACHED; 3]), None);
    assert_eq!(bfs(&chain, 2, vec![UNREACHED; 3]), None);
}

#[test]
fn a_cost_is_computed_for_a_neighbor_that_was_seen_too() {
    // the self-loop is never followed, but its weight is added all the same
    let mut fits = Graph::new(1);
    fits.link(0, 0, usize::MAX);
    assert_eq!(bfs(&fits, 0, vec![UNREACHED]), Some(vec![0]));

    let mut graph = Graph::new(2);
    graph.link(0, 1, 1);
    graph.link(1, 1, usize::MAX);
    assert_eq!(bfs(&graph, 0, vec![UNREACHED; 2]), None);
}

#[test]
fn the_largest_costs_that_fit() {
    let half = usize::MAX / 2;
    let mut graph = Graph::new(2);
    graph.link(0, 1, half);
    assert_eq!(dijkstra(&graph, 0), vec![0, half]);
    assert_eq!(dijkstra(&graph, 1), vec![half, 0]);
}

#[test]
fn try_dijkstra_is_dijkstra_where_the_costs_fit() {
    let mut graph = Graph::new(4);
    graph.link(0, 1, 200);
    graph.link(1, 2, 350);
    for src in 0..4 {
        assert_eq!(try_dijkstra(&graph, src), Some(dijkstra(&graph, src)));
    }
    assert_eq!(try_dijkstra(&graph, 0), Some(vec![0, 200, 550, UNREACHED]));
    assert_eq!(try_dijkstra(&graph, 3), Some(vec![UNREACHED, UNREACHED, UNREACHED, 0]));
}

#[test]
fn try_dijkstra_gives_up_on_a_cost_that_does_not_fit() {
    let mut graph = Graph::new(3);
    graph.link(0, 1, usize::MAX);
    assert_eq!(try_dijkstra(&graph, 0), None);
    assert_eq!(try_dijkstra(&graph, 1), None);
    // node 2 has no edge: its own traversal fits, whatever the others do
    assert_eq!(try_dijkstra(&graph, 2), Some(vec![UNREACHED, UNREACHED, 0]));
}

#[test]
fn with_equal_weights_the_distance_counts_the_edges() {
    let mut graph = Graph::new(5);
    graph.link(0, 1, 7);
    graph.link(1, 2, 7);
    graph.link(2, 3, 7);
    graph.link(0, 3, 7);
    graph.link(3, 4, 7);
    assert_eq!(dijkstra(&graph, 0), vec![0, 7, 14, 7, 14]);
    assert_eq!(dijkstra(&graph, 2), vec![14, 7, 0, 7, 14]);
}
