use stemma::graph::{DirectedGraph, VertexID};
use stemma::layout::{layout, EmptyGraphError, Point};

fn pos<V>(g: &stemma::layout::LayoutGraph<V>, v: VertexID) -> Point {
    g.vertex(v).data.1
}

#[test]
fn chain_layout() {
    // Chain: A -(1)-> B -(1)-> C.
    let mut g: DirectedGraph<&str, u32> = DirectedGraph::new();
    let a = g.add_vertex("A");
    let b = g.add_vertex("B");
    let c = g.add_vertex("C");
    g.add_edge(a, b, 1);
    g.add_edge(b, c, 1);
    let (lg, width, height) = layout(g).unwrap();
    assert_eq!(pos(&lg, a), Point { x: 0, y: 0 });
    assert_eq!(pos(&lg, b), Point { x: 0, y: 10 });
    assert_eq!(pos(&lg, c), Point { x: 0, y: 20 });
    assert_eq!(width, 0);
    assert_eq!(height, 20);
}

#[test]
fn branching_layout() {
    // Root R with two leaf children over edges of weight 2 and weight 1.
    // Sorted descending: the weight-2 child is placed first.
    let mut g: DirectedGraph<&str, u32> = DirectedGraph::new();
    let r = g.add_vertex("R");
    let c1 = g.add_vertex("heavy");
    let c2 = g.add_vertex("light");
    g.add_edge(r, c1, 2);
    g.add_edge(r, c2, 1);
    let (lg, width, height) = layout(g).unwrap();
    assert_eq!(pos(&lg, c1), Point { x: 0, y: 15 });
    assert_eq!(pos(&lg, c2), Point { x: 15, y: 10 });
    assert_eq!(pos(&lg, r), Point { x: 7, y: 0 });
    assert_eq!(width, 15);
    assert_eq!(height, 15);
}

#[test]
fn layout_is_deterministic() {
    // Two runs on the same input produce identical positions and extents.
    let mut g: DirectedGraph<&str, u32> = DirectedGraph::new();
    let r = g.add_vertex("R");
    let a = g.add_vertex("a");
    let b = g.add_vertex("b");
    let c = g.add_vertex("c");
    g.add_edge(r, a, 2);
    g.add_edge(r, b, 1);
    g.add_edge(a, c, 1);
    g.add_edge(b, c, 3);
    let g2 = g.clone();
    let (lg1, w1, h1) = layout(g).unwrap();
    let (lg2, w2, h2) = layout(g2).unwrap();
    assert_eq!(w1, w2);
    assert_eq!(h1, h2);
    for i in 0..lg1.vertices().len() {
        assert_eq!(
            lg1.vertex(VertexID(i)).data.1,
            lg2.vertex(VertexID(i)).data.1
        );
    }
}

#[test]
fn children_sort_by_weight_descending_and_equal_weights_keep_insertion_order() {
    // Children a (weight 1), b (weight 2), c (weight 1): processed as
    // b, a, c — the heaviest first, the two equal ones in insertion order.
    let mut g: DirectedGraph<&str, u32> = DirectedGraph::new();
    let r = g.add_vertex("R");
    let a = g.add_vertex("a");
    let b = g.add_vertex("b");
    let c = g.add_vertex("c");
    g.add_edge(r, a, 1);
    g.add_edge(r, b, 2);
    g.add_edge(r, c, 1);
    let (lg, width, height) = layout(g).unwrap();
    assert_eq!(pos(&lg, b), Point { x: 0, y: 15 });
    assert_eq!(pos(&lg, a), Point { x: 15, y: 10 });
    assert_eq!(pos(&lg, c), Point { x: 30, y: 10 });
    assert_eq!(pos(&lg, r), Point { x: 15, y: 0 });
    assert_eq!(width, 30);
    assert_eq!(height, 15);
}

#[test]
fn empty_graph_fails_with_empty_graph_error() {
    let g: DirectedGraph<&str, u32> = DirectedGraph::new();
    let r = layout(g);
    assert!(matches!(r, Err(EmptyGraphError)));
}

#[test]
fn equal_distance_tie_keeps_the_first_owner() {
    // Two paths of equal cumulative weight (2) reach `c`: via `a` (found
    // first, depth-first in insertion order) and via `b`. The first owner
    // stays, so `c` is positioned under `a` at x = 0, not under `b`.
    let mut g: DirectedGraph<&str, u32> = DirectedGraph::new();
    let r = g.add_vertex("R");
    let a = g.add_vertex("a");
    let b = g.add_vertex("b");
    let c = g.add_vertex("c");
    g.add_edge(r, a, 1);
    g.add_edge(r, b, 1);
    g.add_edge(a, c, 1);
    g.add_edge(b, c, 1);
    let (lg, width, height) = layout(g).unwrap();
    assert_eq!(pos(&lg, a), Point { x: 0, y: 10 });
    assert_eq!(pos(&lg, c), Point { x: 0, y: 20 });
    assert_eq!(pos(&lg, b), Point { x: 15, y: 10 });
    assert_eq!(pos(&lg, r), Point { x: 7, y: 0 });
    assert_eq!(width, 15);
    assert_eq!(height, 20);
}

#[test]
fn strictly_longer_path_takes_ownership() {
    // `c` is reachable from the root directly (weight 1) and through `m`
    // (cumulative weight 4): the longer path owns `c`, so `c` hangs under
    // `m`, 5 * (1 + 2) = 15 units below it.
    let mut g: DirectedGraph<&str, u32> = DirectedGraph::new();
    let r = g.add_vertex("R");
    let m = g.add_vertex("m");
    let c = g.add_vertex("c");
    g.add_edge(r, c, 1);
    g.add_edge(r, m, 2);
    g.add_edge(m, c, 2);
    let (lg, _width, height) = layout(g).unwrap();
    assert_eq!(pos(&lg, m), Point { x: 0, y: 15 });
    assert_eq!(pos(&lg, c), Point { x: 0, y: 30 });
    assert_eq!(height, 30);
}

#[test]
fn sibling_starts_after_the_previous_subtree_width() {
    // R owns `a` and `b`; `a` owns two leaves, so its subtree is 30 units
    // wide and `b` starts at x = 30. Parents are re-centered afterwards at
    // the truncating mean of their children's final x coordinates.
    let mut g: DirectedGraph<&str, u32> = DirectedGraph::new();
    let r = g.add_vertex("R");
    let a = g.add_vertex("a");
    let b = g.add_vertex("b");
    let c = g.add_vertex("c");
    let d = g.add_vertex("d");
    g.add_edge(r, a, 1);
    g.add_edge(r, b, 1);
    g.add_edge(a, c, 1);
    g.add_edge(a, d, 1);
    let (lg, width, height) = layout(g).unwrap();
    assert_eq!(pos(&lg, c), Point { x: 0, y: 20 });
    assert_eq!(pos(&lg, d), Point { x: 15, y: 20 });
    assert_eq!(pos(&lg, a), Point { x: 7, y: 10 });
    assert_eq!(pos(&lg, b), Point { x: 30, y: 10 });
    assert_eq!(pos(&lg, r), Point { x: 18, y: 0 });
    assert_eq!(width, 30);
    assert_eq!(height, 20);
}

#[test]
fn root_is_found_by_walking_incoming_edges_backwards() {
    // Vertex 0 is not the root; the walk over first incoming edges finds it.
    let mut g: DirectedGraph<&str, u32> = DirectedGraph::new();
    let leaf = g.add_vertex("leaf");
    let mid = g.add_vertex("mid");
    let root = g.add_vertex("root");
    g.add_edge(mid, leaf, 1);
    g.add_edge(root, mid, 1);
    let (lg, _w, _h) = layout(g).unwrap();
    assert_eq!(pos(&lg, root), Point { x: 0, y: 0 });
    assert_eq!(pos(&lg, mid), Point { x: 0, y: 10 });
    assert_eq!(pos(&lg, leaf), Point { x: 0, y: 20 });
}

#[test]
fn layout_graph_keeps_labels_weights_and_topology() {
    let mut g: DirectedGraph<String, u32> = DirectedGraph::new();
    let r = g.add_vertex(String::from("root"));
    let a = g.add_vertex(String::from("child"));
    let e = g.add_edge(r, a, 3);
    let (lg, _w, _h) = layout(g).unwrap();
    assert_eq!(lg.vertex(r).data.0, "root");
    assert_eq!(lg.vertex(a).data.0, "child");
    assert_eq!(lg.edge(e).data, 3);
    assert_eq!(lg.edge(e).from(), r);
    assert_eq!(lg.edge(e).to(), a);
    assert_eq!(lg.vertex(r).outgoing(), &[e]);
    assert_eq!(lg.vertex(a).incoming(), &[e]);
}
