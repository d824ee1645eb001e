use handcrafted::graph::Graph;

/// d = a * b + c, built the way the engine builds it.
fn expression() -> (Graph, usize) {
    let mut g = Graph::new();
    let a = g.add_node(vec![]);
    let b = g.add_node(vec![]);
    let c = g.add_node(vec![]);
    let e = g.add_node(vec![a, b]);
    let d = g.add_node(vec![e, c]);
    (g, d)
}

#[test]
fn ids_are_creation_order() {
    let (g, d) = expression();
    assert_eq!(d, 4);
    assert_eq!(g.len(), 5);
    assert_eq!(g.parents_of(3), &vec![0, 1]);
}

#[test]
fn topo_order_is_post_order() {
    let (g, d) = expression();
    assert_eq!(g.topo_order(d), vec![0, 1, 3, 2, 4]);
    assert_eq!(g.topo_order(3), vec![0, 1, 3]);
    assert_eq!(g.topo_order(2), vec![2]);
}

#[test]
fn shared_node_listed_once() {
    // y = x * x + x
    let mut g = Graph::new();
    let x = g.add_node(vec![]);
    let sq = g.add_node(vec![x, x]);
    let y = g.add_node(vec![sq, x]);
    let order = g.topo_order(y);
    assert_eq!(order, vec![0, 1, 2]);
}

#[test]
fn unrelated_nodes_are_left_out() {
    let mut g = Graph::new();
    let a = g.add_node(vec![]);
    let b = g.add_node(vec![]);
    let _c = g.add_node(vec![a, b]);
    let d = g.add_node(vec![b]);
    assert_eq!(g.topo_order(d), vec![1, 3]);
}

#[test]
fn parents_come_first_in_a_neuron() {
    // n = x1*w1 + x2*w2 + b ; o = tanh(n)
    let mut g = Graph::new();
    let x1 = g.add_node(vec![]);
    let x2 = g.add_node(vec![]);
    let w1 = g.add_node(vec![]);
    let w2 = g.add_node(vec![]);
    let b = g.add_node(vec![]);
    let x1w1 = g.add_node(vec![x1, w1]);
    let x2w2 = g.add_node(vec![x2, w2]);
    let s = g.add_node(vec![x1w1, x2w2]);
    let n = g.add_node(vec![s, b]);
    let o = g.add_node(vec![n]);
    let order = g.topo_order(o);
    assert_eq!(order.len(), 10);
    for (pos, &node) in order.iter().enumerate() {
        for p in g.parents_of(node) {
            let ppos = order.iter().position(|x| x == p).unwrap();
            assert!(ppos < pos);
        }
    }
    assert_eq!(*order.last().unwrap(), o);
}

#[test]
fn tree_listing_unfolds_shared_nodes() {
    let (g, d) = expression();
    assert_eq!(g.tree_listing(d), vec![(0, 4), (1, 3), (2, 0), (2, 1), (1, 2)]);
    let mut g = Graph::new();
    let x = g.add_node(vec![]);
    let sq = g.add_node(vec![x, x]);
    assert_eq!(g.tree_listing(sq), vec![(0, 1), (1, 0), (1, 0)]);
}

#[test]
fn truncate_forgets_later_nodes() {
    let (mut g, _) = expression();
    g.truncate(3);
    assert_eq!(g.len(), 3);
    let e = g.add_node(vec![0, 2]);
    assert_eq!(e, 3);
    assert_eq!(g.topo_order(e), vec![0, 2, 3]);
    g.truncate(10);
    assert_eq!(g.len(), 4);
}
