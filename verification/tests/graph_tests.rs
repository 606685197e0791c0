use stemma::graph::{DirectedGraph, EdgeID, VertexID};

#[test]
fn ids_are_assigned_in_creation_order() {
    let mut g: DirectedGraph<&str, u32> = DirectedGraph::new();
    let a = g.add_vertex("a");
    let b = g.add_vertex("b");
    let c = g.add_vertex("c");
    assert_eq!(a, VertexID(0));
    assert_eq!(b, VertexID(1));
    assert_eq!(c, VertexID(2));
    let e0 = g.add_edge(a, b, 1);
    let e1 = g.add_edge(a, c, 2);
    assert_eq!(e0, EdgeID(0));
    assert_eq!(e1, EdgeID(1));
    assert_eq!(g.vertices().len(), 3);
    assert_eq!(g.edges().len(), 2);
}

#[test]
fn adjacency_lists_record_edges_in_insertion_order() {
    let mut g: DirectedGraph<&str, u32> = DirectedGraph::new();
    let a = g.add_vertex("a");
    let b = g.add_vertex("b");
    let e0 = g.add_edge(a, b, 1);
    let e1 = g.add_edge(a, b, 2);
    let e2 = g.add_edge(b, a, 3);
    assert_eq!(g.vertex(a).outgoing(), &[e0, e1]);
    assert_eq!(g.vertex(a).incoming(), &[e2]);
    assert_eq!(g.vertex(b).incoming(), &[e0, e1]);
    assert_eq!(g.vertex(b).outgoing(), &[e2]);
    assert_eq!(g.edge(e0).from(), a);
    assert_eq!(g.edge(e0).to(), b);
    assert_eq!(g.edge(e2).from(), b);
    assert_eq!(g.edge(e2).to(), a);
}

#[test]
fn adjacency_invariant_holds_for_every_edge() {
    // Adjacency invariant, on concrete values: each edge id appears in its
    // source's outgoing list and its destination's incoming list.
    let mut g: DirectedGraph<u8, u32> = DirectedGraph::new();
    let a = g.add_vertex(0);
    let b = g.add_vertex(1);
    let c = g.add_vertex(2);
    let e0 = g.add_edge(a, b, 1);
    let e1 = g.add_edge(b, c, 1);
    let e2 = g.add_edge(a, c, 7);
    for (eid, from, to) in [(e0, a, b), (e1, b, c), (e2, a, c)] {
        assert!(g.vertex(from).outgoing().contains(&eid));
        assert!(g.vertex(to).incoming().contains(&eid));
    }
}

#[test]
fn self_loop_is_registered_on_both_sides_of_one_vertex() {
    let mut g: DirectedGraph<&str, u32> = DirectedGraph::new();
    let a = g.add_vertex("a");
    let e = g.add_edge(a, a, 4);
    assert_eq!(g.vertex(a).outgoing(), &[e]);
    assert_eq!(g.vertex(a).incoming(), &[e]);
}

#[test]
fn mutable_accessors_change_payloads_only() {
    let mut g: DirectedGraph<String, u32> = DirectedGraph::new();
    let a = g.add_vertex(String::from("a"));
    let b = g.add_vertex(String::from("b"));
    let e = g.add_edge(a, b, 1);
    g.vertex_mut(a).data = String::from("renamed");
    g.edge_mut(e).data = 42;
    assert_eq!(g.vertex(a).data, "renamed");
    assert_eq!(g.edge(e).data, 42);
    for v in g.vertices_mut() {
        v.data.push('!');
    }
    for ed in g.edges_mut() {
        ed.data += 1;
    }
    assert_eq!(g.vertex(a).data, "renamed!");
    assert_eq!(g.vertex(b).data, "b!");
    assert_eq!(g.edge(e).data, 43);
}

#[test]
fn map_vertices_preserves_topology_and_transforms_payloads() {
    // Mapping isomorphism: vertex count, edge count and every (from, to)
    // pair survive; only payloads change.
    let mut g: DirectedGraph<&str, u32> = DirectedGraph::new();
    let a = g.add_vertex("a");
    let b = g.add_vertex("b");
    let c = g.add_vertex("c");
    let e0 = g.add_edge(a, b, 1);
    let e1 = g.add_edge(b, c, 2);
    let mapped = g.map_vertices(|id, v| format!("{}#{}", v.data, id.0));
    assert_eq!(mapped.vertices().len(), 3);
    assert_eq!(mapped.edges().len(), 2);
    assert_eq!(mapped.vertex(a).data, "a#0");
    assert_eq!(mapped.vertex(b).data, "b#1");
    assert_eq!(mapped.vertex(c).data, "c#2");
    assert_eq!(mapped.edge(e0).from(), a);
    assert_eq!(mapped.edge(e0).to(), b);
    assert_eq!(mapped.edge(e1).from(), b);
    assert_eq!(mapped.edge(e1).to(), c);
    assert_eq!(mapped.vertex(a).outgoing(), &[e0]);
    assert_eq!(mapped.vertex(c).incoming(), &[e1]);
}

#[test]
fn map_edges_preserves_topology_and_transforms_payloads() {
    let mut g: DirectedGraph<&str, u32> = DirectedGraph::new();
    let a = g.add_vertex("a");
    let b = g.add_vertex("b");
    let e0 = g.add_edge(a, b, 3);
    let e1 = g.add_edge(b, a, 5);
    let mapped = g.map_edges(|id, e| (e.data * 10 + id.0 as u32, true));
    assert_eq!(mapped.vertices().len(), 2);
    assert_eq!(mapped.edges().len(), 2);
    assert_eq!(mapped.edge(e0).data, (30, true));
    assert_eq!(mapped.edge(e1).data, (51, true));
    assert_eq!(mapped.edge(e0).from(), a);
    assert_eq!(mapped.edge(e0).to(), b);
    assert_eq!(mapped.edge(e1).from(), b);
    assert_eq!(mapped.edge(e1).to(), a);
    assert_eq!(mapped.vertex(a).data, "a");
}
