use ranim::graph::{topo_order, Graph, GraphTopoIter};

fn in_degrees(nexts: &Vec<Vec<usize>>) -> Vec<usize> {
    let mut d = vec![0; nexts.len()];
    for row in nexts {
        for &v in row {
            d[v] += 1;
        }
    }
    d
}

fn position(order: &[usize], v: usize) -> usize {
    order.iter().position(|&x| x == v).unwrap()
}

#[test]
fn topo_order_of_a_chain_and_a_fork() {
    // 0 -> 1 -> 3, 0 -> 2 -> 3
    let nexts = vec![vec![1, 2], vec![3], vec![3], vec![]];
    let order = topo_order(&nexts, &in_degrees(&nexts));
    assert_eq!(order, vec![0, 2, 1, 3]);
}

#[test]
fn topo_order_takes_the_latest_ready_node_first() {
    // no edges: nodes are readied in index order, emitted last first
    let nexts = vec![vec![], vec![], vec![]];
    let order = topo_order(&nexts, &in_degrees(&nexts));
    assert_eq!(order, vec![2, 1, 0]);
}

#[test]
fn topo_order_puts_each_node_after_its_sources() {
    let nexts = vec![vec![4], vec![0, 4], vec![1], vec![2, 0], vec![]];
    let order = topo_order(&nexts, &in_degrees(&nexts));
    assert_eq!(order.len(), 5);
    for (u, row) in nexts.iter().enumerate() {
        for &v in row {
            assert!(position(&order, u) < position(&order, v));
        }
    }
}

#[test]
fn topo_order_counts_repeated_edges() {
    let nexts = vec![vec![1, 1], vec![]];
    let order = topo_order(&nexts, &in_degrees(&nexts));
    assert_eq!(order, vec![0, 1]);
}

#[test]
fn topo_order_leaves_out_a_cycle_and_what_follows_it() {
    // 0 -> 1 -> 2 -> 1, 2 -> 3; 4 stands alone
    let nexts = vec![vec![1], vec![2], vec![1, 3], vec![], vec![]];
    let order = topo_order(&nexts, &in_degrees(&nexts));
    assert_eq!(order, vec![4, 0]);
}

#[test]
fn topo_order_leaves_out_a_self_loop() {
    let nexts = vec![vec![0]];
    let order = topo_order(&nexts, &in_degrees(&nexts));
    assert!(order.is_empty());
}

#[test]
fn graph_iterates_nodes_in_topological_order() {
    let mut g: Graph<&str> = Graph::new();
    let clear = g.insert_node("clear");
    let compute = g.insert_node("compute");
    let color = g.insert_node("color");
    let depth = g.insert_node("depth");
    assert_eq!((clear, compute, color, depth), (0, 1, 2, 3));
    g.insert_edge(clear, compute);
    g.insert_edge(compute, depth);
    g.insert_edge(depth, color);
    assert_eq!(g.topo_keys(), vec![0, 1, 3, 2]);
    let names: Vec<&str> = g.iter().into_iter().copied().collect();
    assert_eq!(names, vec!["clear", "compute", "depth", "color"]);
}

#[test]
fn graph_with_a_cycle_iterates_fewer_nodes() {
    let mut g: Graph<u32> = Graph::new();
    let a = g.insert_node(10);
    let b = g.insert_node(20);
    let c = g.insert_node(30);
    g.insert_edge(a, b);
    g.insert_edge(b, c);
    g.insert_edge(c, b);
    let nodes: Vec<u32> = g.iter().into_iter().copied().collect();
    assert_eq!(nodes, vec![10]);
}

#[test]
fn empty_graph_iterates_nothing() {
    let g: Graph<u8> = Graph::new();
    assert!(g.iter().is_empty());
    assert!(g.topo_keys().is_empty());
    let d: Graph<u8> = Graph::default();
    assert!(d.iter().is_empty());
}

#[test]
fn topo_iter_hands_out_one_node_at_a_time() {
    let mut g: Graph<char> = Graph::new();
    let a = g.insert_node('a');
    let b = g.insert_node('b');
    let c = g.insert_node('c');
    g.insert_edge(a, c);
    g.insert_edge(b, c);
    let mut it = GraphTopoIter::new(&g);
    assert_eq!(it.next(), Some(&'b'));
    assert_eq!(it.next(), Some(&'a'));
    assert_eq!(it.next(), Some(&'c'));
    assert_eq!(it.next(), None);
    assert_eq!(it.next(), None);
}
