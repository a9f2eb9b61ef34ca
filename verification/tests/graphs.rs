use graph_search::basic_graphs::{bfs, dfs, Edge, Graph, InvalidGraph, Node};

fn chain() -> (Vec<Node>, Vec<Edge>) {
    let edges: Vec<Edge> = vec![(0, 1).into(), (1, 2).into()];
    let vertex: Vec<Node> = vec![0.into(), 1.into(), 2.into()];
    (vertex, edges)
}

#[test]
fn test_find_neighbours() {
    let edges: Vec<Edge> = vec![(0, 1).into(), (1, 2).into()];
    let vertex: Vec<Node> = vec![0.into(), 1.into(), 2.into()];

    let g = Graph::new(&vertex, &edges);
    let test_vertex: Node = 0.into();

    let result = test_vertex.neighbours(&g);
    assert_eq!(1, result.len());
}

#[test]
fn test_validation() {
    let edges: Vec<Edge> = vec![(0, 1).into(), (1, 2).into()];
    let vertex: Vec<Node> = vec![1.into(), 2.into()];

    assert!(!Graph::validate(&vertex, &edges));
    assert!(matches!(Graph::try_new(&vertex, &edges), Err(InvalidGraph)));
}

#[test]
fn test_bfs() {
    let edges: Vec<Edge> = vec![(0, 1).into(), (1, 2).into()];
    let vertex: Vec<Node> = vec![0.into(), 1.into(), 2.into()];
    let g = Graph::new(&vertex, &edges);

    assert_eq!(None, bfs(&g, &2.into(), &0.into()));
    assert_eq!(3, bfs(&g, &0.into(), &2.into()).unwrap().len());
}

#[test]
fn test_dfs() {
    let edges: Vec<Edge> = vec![(0, 1).into(), (1, 2).into()];
    let vertex: Vec<Node> = vec![0.into(), 1.into(), 2.into()];
    let g = Graph::new(&vertex, &edges);

    assert_eq!(None, dfs(&g, &2.into(), &0.into()));
    assert_eq!(3, dfs(&g, &0.into(), &2.into()).unwrap().len());
}

#[test]
fn edge_and_node_from_plain_values() {
    let e: Edge = (3, 7).into();
    assert_eq!(Edge(3, 7), e);
    let n: Node = 5.into();
    assert_eq!(Node(5), n);
}

#[test]
fn validation_accepts_a_consistent_graph() {
    let (vertex, edges) = chain();
    assert!(Graph::validate(&vertex, &edges));
    assert!(Graph::try_new(&vertex, &edges).is_ok());
}

#[test]
fn validation_checks_both_endpoints() {
    let vertex: Vec<Node> = vec![0.into(), 1.into()];
    let leaves_unknown: Vec<Edge> = vec![(9, 1).into()];
    let enters_unknown: Vec<Edge> = vec![(0, 9).into()];
    assert!(!Graph::validate(&vertex, &leaves_unknown));
    assert!(!Graph::validate(&vertex, &enters_unknown));
    assert!(Graph::try_new(&vertex, &leaves_unknown).is_err());
    assert!(Graph::try_new(&vertex, &enters_unknown).is_err());
}

#[test]
fn validation_of_empty_lists() {
    let vertex: Vec<Node> = vec![];
    let edges: Vec<Edge> = vec![];
    assert!(Graph::validate(&vertex, &edges));
    let lonely: Vec<Edge> = vec![(0, 0).into()];
    assert!(!Graph::validate(&vertex, &lonely));
}

#[test]
fn neighbours_keep_edge_order_and_repeats() {
    let vertex: Vec<Node> = vec![0.into(), 1.into(), 2.into(), 3.into()];
    let edges: Vec<Edge> = vec![
        (0, 3).into(),
        (1, 2).into(),
        (0, 1).into(),
        (0, 3).into(),
        (2, 0).into(),
        (0, 0).into(),
    ];
    let g = Graph::new(&vertex, &edges);
    let got: Vec<Node> = Node(0).neighbours(&g).into_iter().collect();
    assert_eq!(vec![Node(3), Node(1), Node(3), Node(0)], got);
    let none: Vec<Node> = Node(3).neighbours(&g).into_iter().collect();
    assert_eq!(Vec::<Node>::new(), none);
}

#[test]
fn neighbours_of_a_vertex_outside_the_graph() {
    let (vertex, edges) = chain();
    let g = Graph::new(&vertex, &edges);
    assert_eq!(0, Node(42).neighbours(&g).len());
}

#[test]
fn chain_histories_are_exact() {
    let (vertex, edges) = chain();
    let g = Graph::new(&vertex, &edges);
    assert_eq!(Some(vec![0, 1, 2]), bfs(&g, &Node(0), &Node(2)));
    assert_eq!(Some(vec![0, 1, 2]), dfs(&g, &Node(0), &Node(2)));
    assert_eq!(Some(vec![0, 1]), bfs(&g, &Node(0), &Node(1)));
    assert_eq!(Some(vec![1, 2]), dfs(&g, &Node(1), &Node(2)));
}

#[test]
fn search_for_the_root_itself() {
    let (vertex, edges) = chain();
    let g = Graph::new(&vertex, &edges);
    assert_eq!(Some(vec![1]), bfs(&g, &Node(1), &Node(1)));
    assert_eq!(Some(vec![1]), dfs(&g, &Node(1), &Node(1)));
    // a root that is no vertex still reaches itself
    assert_eq!(Some(vec![9]), bfs(&g, &Node(9), &Node(9)));
    assert_eq!(Some(vec![9]), dfs(&g, &Node(9), &Node(9)));
    assert_eq!(None, bfs(&g, &Node(9), &Node(0)));
    assert_eq!(None, dfs(&g, &Node(9), &Node(0)));
}

fn diamond() -> (Vec<Node>, Vec<Edge>) {
    // 0 -> 1 -> 3, 0 -> 2 -> 4, 1 -> 4
    let vertex: Vec<Node> = (0..5).map(Node).collect();
    let edges: Vec<Edge> = vec![
        (0, 1).into(),
        (0, 2).into(),
        (1, 3).into(),
        (1, 4).into(),
        (2, 4).into(),
    ];
    (vertex, edges)
}

#[test]
fn bfs_visits_level_by_level() {
    let (vertex, edges) = diamond();
    let g = Graph::new(&vertex, &edges);
    assert_eq!(Some(vec![0, 1, 2, 3, 4]), bfs(&g, &Node(0), &Node(4)));
    assert_eq!(Some(vec![0, 1, 2, 3]), bfs(&g, &Node(0), &Node(3)));
    assert_eq!(Some(vec![0, 1, 2]), bfs(&g, &Node(0), &Node(2)));
}

#[test]
fn dfs_goes_deep_first() {
    let (vertex, edges) = diamond();
    let g = Graph::new(&vertex, &edges);
    assert_eq!(Some(vec![0, 1, 3, 4]), dfs(&g, &Node(0), &Node(4)));
    assert_eq!(Some(vec![0, 1, 3, 4, 2]), dfs(&g, &Node(0), &Node(2)));
}

#[test]
fn history_is_not_a_shortest_path() {
    let (vertex, edges) = diamond();
    let g = Graph::new(&vertex, &edges);
    // the shortest walk from 0 to 4 has three vertices
    assert_eq!(5, bfs(&g, &Node(0), &Node(4)).unwrap().len());
}

#[test]
fn an_edge_back_to_the_root_is_not_followed() {
    let vertex: Vec<Node> = (0..3).map(Node).collect();
    let edges: Vec<Edge> = vec![(0, 1).into(), (1, 0).into(), (1, 2).into()];
    let g = Graph::new(&vertex, &edges);
    assert_eq!(Some(vec![0, 1, 2]), dfs(&g, &Node(0), &Node(2)));
    assert_eq!(Some(vec![0, 1, 2]), bfs(&g, &Node(0), &Node(2)));
}

#[test]
fn cycles_and_parallel_edges_end() {
    let vertex: Vec<Node> = (0..4).map(Node).collect();
    let edges: Vec<Edge> = vec![
        (0, 0).into(),
        (0, 1).into(),
        (0, 1).into(),
        (1, 0).into(),
        (1, 2).into(),
        (2, 1).into(),
    ];
    let g = Graph::new(&vertex, &edges);
    assert_eq!(None, bfs(&g, &Node(0), &Node(3)));
    assert_eq!(None, dfs(&g, &Node(0), &Node(3)));
    assert_eq!(Some(vec![0, 1, 2]), bfs(&g, &Node(0), &Node(2)));
    assert_eq!(Some(vec![0, 1, 2]), dfs(&g, &Node(0), &Node(2)));
}

#[test]
fn found_histories_start_at_root_and_end_at_target() {
    let (vertex, edges) = diamond();
    let g = Graph::new(&vertex, &edges);
    for root in 0..5usize {
        for target in 0..5usize {
            for h in [bfs(&g, &Node(root), &Node(target)), dfs(&g, &Node(root), &Node(target))] {
                if let Some(h) = h {
                    assert_eq!(root, h[0]);
                    assert_eq!(target, h[h.len() - 1]);
                    assert!(h[..h.len() - 1].iter().all(|v| *v != target));
                }
            }
        }
    }
    assert_eq!(None, bfs(&g, &Node(4), &Node(0)));
    assert_eq!(None, dfs(&g, &Node(3), &Node(1)));
}

#[test]
fn searches_repeat_their_answers() {
    let (vertex, edges) = diamond();
    let g = Graph::new(&vertex, &edges);
    assert_eq!(bfs(&g, &Node(0), &Node(4)), bfs(&g, &Node(0), &Node(4)));
    assert_eq!(dfs(&g, &Node(0), &Node(4)), dfs(&g, &Node(0), &Node(4)));
    assert_eq!(bfs(&g, &Node(4), &Node(0)), bfs(&g, &Node(4), &Node(0)));
}
