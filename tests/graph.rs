use pixie_rust::recommender::graph::Graph;

#[test]
fn unknown_node_random_walk() {
    let graph: Graph<u32> = Graph::new();
    let visited = graph.random_walk(&1, 200, &(|_: &u32, x: &u32| *x as i64));
    assert_eq!(
        visited.len(),
        0,
        "Visited {} node(s) on an empty graph",
        visited.len()
    );
}

#[test]
fn lone_node_random_walk() {
    let mut graph: Graph<u32> = Graph::new();
    graph.add_node(&1);
    let visited = graph.random_walk(&1, 200, &(|_: &u32, x: &u32| *x as i64));
    assert_eq!(
        visited.len(),
        1,
        "Visited {} nodes on a graph with a single node",
        visited.len()
    );
}

#[test]
fn sample_with_weights() {
    let list: Vec<u8> = vec![1, 0];
    let res1 = Graph::<u8>::weighted_sample(&list, &(|x: &u8| *x as i64));
    assert_eq!(res1.unwrap(), 1);
    let res2 = Graph::<u8>::weighted_sample(&list, &(|x: &u8| 1 + (-1 * (*x as i64))));
    assert_eq!(res2.unwrap(), 0);
    let res3 = Graph::<u8>::weighted_sample(&list, &(|_: &u8| -1));
    assert_eq!(res3, None);
    let res4 = Graph::<u8>::weighted_sample(&list, &(|_: &u8| 1));
    assert!(res4.unwrap() == 0 || res4.unwrap() == 1);
}

#[test]
fn successors_lists_both_ends() {
    let mut graph: Graph<u32> = Graph::new();
    graph.add_node(&1);
    graph.add_node(&2);
    graph.add_edge(&1, &2);
    assert_eq!(graph.successors(&1), vec![2]);
    assert_eq!(graph.successors(&2), vec![1]);
    assert_eq!(graph.successors(&3), Vec::<u32>::new());
}

#[test]
fn max_degree_grows_with_edges() {
    let mut graph: Graph<u32> = Graph::new();
    assert_eq!(graph.max_degree(), 0);
    graph.add_node(&1);
    graph.add_node(&2);
    graph.add_node(&3);
    assert_eq!(graph.max_degree(), 0);
    graph.add_edge(&1, &2);
    assert_eq!(graph.max_degree(), 1);
    graph.add_edge(&1, &3);
    assert_eq!(graph.max_degree(), 2);
    graph.add_edge(&2, &3);
    assert_eq!(graph.max_degree(), 2);
}

#[test]
fn degree_counts_neighbours() {
    let mut graph: Graph<u32> = Graph::new();
    graph.add_node(&1);
    graph.add_node(&2);
    graph.add_node(&3);
    assert_eq!(graph.degree(&1), 0);
    graph.add_edge(&1, &2);
    assert_eq!(graph.degree(&1), 1);
    graph.add_edge(&1, &3);
    assert_eq!(graph.degree(&1), 2);
    assert_eq!(graph.degree(&2), 1);
    assert_eq!(graph.degree(&3), 1);
    assert_eq!(graph.degree(&9), 0);
}

#[test]
fn edge_is_seen_from_both_ends() {
    let mut graph: Graph<u32> = Graph::new();
    graph.add_edge(&7, &8);
    assert!(graph.successors(&7).contains(&8));
    assert!(graph.successors(&8).contains(&7));
}

#[test]
fn repeated_insertions_change_nothing() {
    let mut graph: Graph<u32> = Graph::new();
    graph.add_edge(&1, &2);
    graph.add_node(&1);
    graph.add_node(&3);
    let succ = graph.successors(&1);
    let deg = graph.degree(&1);
    let max = graph.max_degree();
    graph.add_edge(&1, &2);
    graph.add_edge(&2, &1);
    graph.add_node(&1);
    graph.add_node(&3);
    assert_eq!(graph.successors(&1), succ);
    assert_eq!(graph.degree(&1), deg);
    assert_eq!(graph.max_degree(), max);
    assert_eq!(graph.successors(&3), Vec::<u32>::new());
}

#[test]
fn self_edge_lists_the_node_once() {
    let mut graph: Graph<u32> = Graph::new();
    graph.add_edge(&4, &4);
    graph.add_edge(&4, &4);
    assert_eq!(graph.successors(&4), vec![4]);
    assert_eq!(graph.degree(&4), 1);
    assert_eq!(graph.max_degree(), 1);
}

#[test]
fn walk_stays_within_bound() {
    let mut graph: Graph<u32> = Graph::new();
    graph.add_edge(&1, &2);
    graph.add_edge(&2, &3);
    for h in [1u8, 2, 5, 17] {
        let visited = graph.random_walk(&1, h, &(|_: &u32, _: &u32| 1));
        assert_eq!(visited.len(), h as usize);
        assert_eq!(visited[0], 1);
    }
    let none = graph.random_walk(&1, 0, &(|_: &u32, _: &u32| 1));
    assert!(none.is_empty());
    let absent = graph.random_walk(&9, 5, &(|_: &u32, _: &u32| 1));
    assert!(absent.is_empty());
}

#[test]
fn walk_prefers_heavier_neighbour() {
    let mut graph: Graph<u32> = Graph::new();
    graph.add_node(&1);
    graph.add_node(&2);
    graph.add_node(&3);
    graph.add_edge(&1, &2);
    graph.add_edge(&1, &3);
    let visited = graph.random_walk(&1, 200, &(|_: &u32, x: &u32| *x as i64));
    assert_eq!(visited.len(), 200);
    assert!(
        visited.iter().filter(|&&x| x == 2).count() < visited.iter().filter(|&&x| x == 3).count()
    );
}

#[test]
fn walk_stops_where_weights_are_zero() {
    let mut graph: Graph<u32> = Graph::new();
    graph.add_edge(&1, &2);
    graph.add_edge(&2, &3);
    let visited = graph.random_walk(&1, 10, &(|from: &u32, to: &u32| if to > from { 1 } else { 0 }));
    assert_eq!(visited, vec![1, 2, 3]);
}

#[test]
fn ring_walk_runs_full_length() {
    let mut graph: Graph<char> = Graph::new();
    let ring = ['a', 'b', 'c', 'd', 'e'];
    for i in 0..5 {
        graph.add_edge(&ring[i], &ring[(i + 1) % 5]);
    }
    for _ in 0..20 {
        let visited = graph.random_walk(&'a', 20, &(|_: &char, _: &char| 1));
        assert_eq!(visited.len(), 20);
        assert_eq!(visited[0], 'a');
        for k in 0..19 {
            let i = ring.iter().position(|c| *c == visited[k]).unwrap();
            let next = visited[k + 1];
            assert!(next == ring[(i + 1) % 5] || next == ring[(i + 4) % 5]);
        }
    }
}
