//! An arena-indexed directed multigraph.
//!
//! Vertices and edges live in two append-only vectors; their indices double as
//! stable identities ([`VertexID`], [`EdgeID`]). Every vertex keeps its
//! incoming and outgoing edge ids in insertion order. The well-formedness
//! predicate [`DirectedGraph::wf`] ties the two sides together: each edge is
//! registered in the adjacency lists of both of its endpoints, and each
//! adjacency entry points back at an edge with the matching endpoint.

use vstd::prelude::*;

verus! {

/// Handle to a vertex: its index, in creation order, within one graph instance.
#[derive(Copy, Clone, Debug, PartialEq, Eq, Hash, Structural)]
pub struct VertexID(pub usize);

/// Handle to an edge: its index, in creation order, within one graph instance.
#[derive(Copy, Clone, Debug, PartialEq, Eq, Hash, Structural)]
pub struct EdgeID(pub usize);

/// A vertex: a payload plus its incoming and outgoing edge ids in insertion
/// order. The adjacency fields are public so that specifications can speak
/// about them; they are maintained exclusively by [`DirectedGraph::add_edge`].
#[derive(Clone, Debug)]
pub struct Vertex<V> {
    pub incoming: Vec<EdgeID>,
    pub outgoing: Vec<EdgeID>,
    pub data: V,
}

impl<V> Vertex<V> {
    /// The ids of the edges that end at this vertex, in insertion order.
    pub fn incoming(&self) -> (r: &[EdgeID])
        ensures
            r@ == self.incoming@,
    {
        self.incoming.as_slice()
    }

    /// The ids of the edges that start at this vertex, in insertion order.
    pub fn outgoing(&self) -> (r: &[EdgeID])
        ensures
            r@ == self.outgoing@,
    {
        self.outgoing.as_slice()
    }
}

/// An edge: a payload plus the ids of its source and destination vertices.
#[derive(Clone, Debug)]
pub struct Edge<E> {
    pub from: VertexID,
    pub to: VertexID,
    pub data: E,
}

impl<E> Edge<E> {
    /// The id of the vertex this edge starts at.
    pub fn from(&self) -> (r: VertexID)
        ensures
            r == self.from,
    {
        self.from
    }

    /// The id of the vertex this edge ends at.
    pub fn to(&self) -> (r: VertexID)
        ensures
            r == self.to,
    {
        self.to
    }
}

/// A directed multigraph that owns all of its vertices and edges in two
/// append-only arenas.
#[derive(Clone, Debug)]
pub struct DirectedGraph<V, E> {
    pub vertices: Vec<Vertex<V>>,
    pub edges: Vec<Edge<E>>,
}

impl<V, E> DirectedGraph<V, E> {
    /// The adjacency entry `k` of vertex `v`'s outgoing list names a valid
    /// edge that indeed starts at `v`.
    pub open spec fn out_entry_ok(self, v: int, k: int) -> bool {
        let eid = self.vertices@[v].outgoing@[k];
        &&& eid.0 < self.edges@.len()
        &&& self.edges@[eid.0 as int].from.0 == v
    }

    /// The adjacency entry `k` of vertex `v`'s incoming list names a valid
    /// edge that indeed ends at `v`.
    pub open spec fn in_entry_ok(self, v: int, k: int) -> bool {
        let eid = self.vertices@[v].incoming@[k];
        &&& eid.0 < self.edges@.len()
        &&& self.edges@[eid.0 as int].to.0 == v
    }

    /// Both endpoints of every edge are valid vertex indices.
    pub open spec fn edges_in_range(self) -> bool {
        forall|e: int| 0 <= e < self.edges@.len() ==> {
            &&& (#[trigger] self.edges@[e]).from.0 < self.vertices@.len()
            &&& self.edges@[e].to.0 < self.vertices@.len()
        }
    }

    /// Every adjacency entry points at an edge with the matching endpoint.
    pub open spec fn adjacency_sound(self) -> bool {
        &&& forall|v: int, k: int|
            0 <= v < self.vertices@.len() && 0 <= k < self.vertices@[v].outgoing@.len()
                ==> #[trigger] self.out_entry_ok(v, k)
        &&& forall|v: int, k: int|
            0 <= v < self.vertices@.len() && 0 <= k < self.vertices@[v].incoming@.len()
                ==> #[trigger] self.in_entry_ok(v, k)
    }

    /// Every edge is listed in the outgoing list of its source and in the
    /// incoming list of its destination.
    pub open spec fn adjacency_complete(self) -> bool {
        forall|e: int| 0 <= e < self.edges@.len() ==> {
            &&& self.vertices@[(#[trigger] self.edges@[e]).from.0 as int].outgoing@.contains(
                EdgeID(e as usize),
            )
            &&& self.vertices@[self.edges@[e].to.0 as int].incoming@.contains(EdgeID(e as usize))
        }
    }

    /// Well-formedness: the invariant that building a graph exclusively
    /// through `add_vertex` and `add_edge` establishes and maintains.
    pub open spec fn wf(self) -> bool {
        &&& self.edges_in_range()
        &&& self.adjacency_sound()
        &&& self.adjacency_complete()
    }

    /// Creates an empty graph.
    pub fn new() -> (r: Self)
        ensures
            r.wf(),
            r.vertices@.len() == 0,
            r.edges@.len() == 0,
    {
        DirectedGraph { vertices: Vec::new(), edges: Vec::new() }
    }

    /// Appends a vertex with empty adjacency and returns its id.
    pub fn add_vertex(&mut self, data: V) -> (id: VertexID)
        ensures
            old(self).wf() ==> final(self).wf(),
            id.0 == old(self).vertices@.len(),
            final(self).vertices@.len() == old(self).vertices@.len() + 1,
            forall|i: int|
                0 <= i < old(self).vertices@.len()
                    ==> final(self).vertices@[i] == old(self).vertices@[i],
            final(self).vertices@[id.0 as int].data == data,
            final(self).vertices@[id.0 as int].incoming@ == Seq::<EdgeID>::empty(),
            final(self).vertices@[id.0 as int].outgoing@ == Seq::<EdgeID>::empty(),
            final(self).edges@ == old(self).edges@,
    {
        let id = VertexID(self.vertices.len());
        self.vertices.push(Vertex { incoming: Vec::new(), outgoing: Vec::new(), data });
        proof {
            if old(self).wf() {
                assert forall|v: int, k: int|
                    0 <= v < self.vertices@.len() && 0 <= k
                        < self.vertices@[v].outgoing@.len() implies #[trigger] self.out_entry_ok(
                    v,
                    k,
                ) by {
                    assert(v < old(self).vertices@.len());
                    assert(old(self).out_entry_ok(v, k));
                }
                assert forall|v: int, k: int|
                    0 <= v < self.vertices@.len() && 0 <= k
                        < self.vertices@[v].incoming@.len() implies #[trigger] self.in_entry_ok(
                    v,
                    k,
                ) by {
                    assert(v < old(self).vertices@.len());
                    assert(old(self).in_entry_ok(v, k));
                }
                assert forall|e: int| 0 <= e < self.edges@.len() implies {
                    &&& self.vertices@[(#[trigger] self.edges@[e]).from.0 as int].outgoing@.contains(
                        EdgeID(e as usize),
                    )
                    &&& self.vertices@[self.edges@[e].to.0 as int].incoming@.contains(
                        EdgeID(e as usize),
                    )
                } by {
                    assert(self.edges@[e] == old(self).edges@[e]);
                    assert(self.vertices@[self.edges@[e].from.0 as int] == old(
                        self,
                    ).vertices@[self.edges@[e].from.0 as int]);
                    assert(self.vertices@[self.edges@[e].to.0 as int] == old(
                        self,
                    ).vertices@[self.edges@[e].to.0 as int]);
                }
            }
        }
        id
    }

    /// Appends an edge from `from` to `to` and registers it in both
    /// endpoints' adjacency lists. The endpoints must be ids previously
    /// returned by `add_vertex` on this instance.
    pub fn add_edge(&mut self, from: VertexID, to: VertexID, data: E) -> (id: EdgeID)
        requires
            from.0 < old(self).vertices@.len(),
            to.0 < old(self).vertices@.len(),
        ensures
            old(self).wf() ==> final(self).wf(),
            id.0 == old(self).edges@.len(),
            final(self).edges@ == old(self).edges@.push(Edge { from, to, data }),
            final(self).vertices@.len() == old(self).vertices@.len(),
            forall|i: int|
                0 <= i < old(self).vertices@.len()
                    ==> (#[trigger] final(self).vertices@[i]).data == old(
                    self,
                ).vertices@[i].data,
            forall|i: int|
                0 <= i < old(self).vertices@.len() && i != to.0
                    ==> (#[trigger] final(self).vertices@[i]).incoming@ == old(
                    self,
                ).vertices@[i].incoming@,
            forall|i: int|
                0 <= i < old(self).vertices@.len() && i != from.0
                    ==> (#[trigger] final(self).vertices@[i]).outgoing@ == old(
                    self,
                ).vertices@[i].outgoing@,
            final(self).vertices@[to.0 as int].incoming@ == old(
                self,
            ).vertices@[to.0 as int].incoming@.push(id),
            final(self).vertices@[from.0 as int].outgoing@ == old(
                self,
            ).vertices@[from.0 as int].outgoing@.push(id),
    {
        let id = EdgeID(self.edges.len());
        self.edges.push(Edge { to, from, data });
        let tv = &mut self.vertices[to.0];
        tv.incoming.push(id);
        let fv = &mut self.vertices[from.0];
        fv.outgoing.push(id);
        proof {
            if old(self).wf() {
                assert forall|e: int| 0 <= e < self.edges@.len() implies {
                    &&& (#[trigger] self.edges@[e]).from.0 < self.vertices@.len()
                    &&& self.edges@[e].to.0 < self.vertices@.len()
                } by {
                    if e < old(self).edges@.len() {
                        assert(self.edges@[e] == old(self).edges@[e]);
                    }
                }
                assert forall|v: int, k: int|
                    0 <= v < self.vertices@.len() && 0 <= k
                        < self.vertices@[v].outgoing@.len() implies #[trigger] self.out_entry_ok(
                    v,
                    k,
                ) by {
                    if v == from.0 && k == old(self).vertices@[v].outgoing@.len() {
                        assert(self.vertices@[v].outgoing@[k] == id);
                    } else {
                        assert(self.vertices@[v].outgoing@[k] == old(
                            self,
                        ).vertices@[v].outgoing@[k]);
                        assert(old(self).out_entry_ok(v, k));
                    }
                }
                assert forall|v: int, k: int|
                    0 <= v < self.vertices@.len() && 0 <= k
                        < self.vertices@[v].incoming@.len() implies #[trigger] self.in_entry_ok(
                    v,
                    k,
                ) by {
                    if v == to.0 && k == old(self).vertices@[v].incoming@.len() {
                        assert(self.vertices@[v].incoming@[k] == id);
                    } else {
                        assert(self.vertices@[v].incoming@[k] == old(
                            self,
                        ).vertices@[v].incoming@[k]);
                        assert(old(self).in_entry_ok(v, k));
                    }
                }
                assert forall|e: int| 0 <= e < self.edges@.len() implies {
                    &&& self.vertices@[(#[trigger] self.edges@[e]).from.0 as int].outgoing@.contains(
                        EdgeID(e as usize),
                    )
                    &&& self.vertices@[self.edges@[e].to.0 as int].incoming@.contains(
                        EdgeID(e as usize),
                    )
                } by {
                    if e < old(self).edges@.len() {
                        let f0 = old(self).edges@[e].from.0 as int;
                        let t0 = old(self).edges@[e].to.0 as int;
                        let kf = choose|k: int|
                            0 <= k < old(self).vertices@[f0].outgoing@.len() && old(
                                self,
                            ).vertices@[f0].outgoing@[k] == EdgeID(e as usize);
                        assert(self.vertices@[f0].outgoing@[kf] == EdgeID(e as usize));
                        let kt = choose|k: int|
                            0 <= k < old(self).vertices@[t0].incoming@.len() && old(
                                self,
                            ).vertices@[t0].incoming@[k] == EdgeID(e as usize);
                        assert(self.vertices@[t0].incoming@[kt] == EdgeID(e as usize));
                    } else {
                        let lf = self.vertices@[from.0 as int].outgoing@.len() - 1;
                        assert(self.vertices@[from.0 as int].outgoing@[lf] == id);
                        let lt = self.vertices@[to.0 as int].incoming@.len() - 1;
                        assert(self.vertices@[to.0 as int].incoming@[lt] == id);
                    }
                }
            }
        }
        id
    }

    /// O(1) shared access to the vertex with the given id.
    pub fn vertex(&self, vertex: VertexID) -> (r: &Vertex<V>)
        requires
            vertex.0 < self.vertices@.len(),
        ensures
            *r == self.vertices@[vertex.0 as int],
    {
        &self.vertices[vertex.0]
    }

    /// O(1) shared access to the edge with the given id.
    pub fn edge(&self, edge: EdgeID) -> (r: &Edge<E>)
        requires
            edge.0 < self.edges@.len(),
        ensures
            *r == self.edges@[edge.0 as int],
    {
        &self.edges[edge.0]
    }

    /// O(1) exclusive access to the vertex with the given id.
    pub fn vertex_mut(&mut self, vertex: VertexID) -> (r: &mut Vertex<V>)
        requires
            vertex.0 < old(self).vertices@.len(),
        ensures
            *r == old(self).vertices@[vertex.0 as int],
            final(self).vertices@ == old(self).vertices@.update(vertex.0 as int, *final(r)),
            final(self).edges@ == old(self).edges@,
    {
        &mut self.vertices[vertex.0]
    }

    /// O(1) exclusive access to the edge with the given id.
    pub fn edge_mut(&mut self, edge: EdgeID) -> (r: &mut Edge<E>)
        requires
            edge.0 < old(self).edges@.len(),
        ensures
            *r == old(self).edges@[edge.0 as int],
            final(self).edges@ == old(self).edges@.update(edge.0 as int, *final(r)),
            final(self).vertices@ == old(self).vertices@,
    {
        &mut self.edges[edge.0]
    }

    /// All edges, in creation order.
    pub fn edges(&self) -> (r: &[Edge<E>])
        ensures
            r@ == self.edges@,
    {
        self.edges.as_slice()
    }

    /// All vertices, in creation order.
    pub fn vertices(&self) -> (r: &[Vertex<V>])
        ensures
            r@ == self.vertices@,
    {
        self.vertices.as_slice()
    }

    /// All edges, in creation order, for in-place payload mutation.
    pub fn edges_mut(&mut self) -> (r: &mut [Edge<E>])
        ensures
            r@ == old(self).edges@,
            final(self).edges@ == final(r)@,
            final(self).vertices@ == old(self).vertices@,
    {
        self.edges.as_mut_slice()
    }

    /// All vertices, in creation order, for in-place payload mutation.
    pub fn vertices_mut(&mut self) -> (r: &mut [Vertex<V>])
        ensures
            r@ == old(self).vertices@,
            final(self).vertices@ == final(r)@,
            final(self).edges@ == old(self).edges@,
    {
        self.vertices.as_mut_slice()
    }

    /// Consumes the graph and produces a new one with identical edges and
    /// adjacency, where every vertex payload is replaced by `f(id, vertex)`.
    pub fn map_vertices<V2, F: Fn(VertexID, Vertex<V>) -> V2>(self, f: F) -> (r: DirectedGraph<
        V2,
        E,
    >)
        requires
            forall|i: int|
                0 <= i < self.vertices@.len() ==> call_requires(
                    f,
                    (VertexID(i as usize), #[trigger] self.vertices@[i]),
                ),
        ensures
            r.edges@ == self.edges@,
            r.vertices@.len() == self.vertices@.len(),
            forall|i: int|
                0 <= i < self.vertices@.len() ==> {
                    &&& (#[trigger] r.vertices@[i]).incoming@ == self.vertices@[i].incoming@
                    &&& r.vertices@[i].outgoing@ == self.vertices@[i].outgoing@
                    &&& call_ensures(
                        f,
                        (VertexID(i as usize), self.vertices@[i]),
                        r.vertices@[i].data,
                    )
                },
            self.wf() ==> r.wf(),
    {
        let ghost orig = self;
        let DirectedGraph { mut vertices, edges } = self;
        let mut mapped: Vec<Vertex<V2>> = Vec::new();
        while vertices.len() > 0
            invariant
                mapped@.len() + vertices@.len() == orig.vertices@.len(),
                vertices@ == orig.vertices@.skip(mapped@.len() as int),
                forall|i: int|
                    0 <= i < orig.vertices@.len() ==> call_requires(
                        f,
                        (VertexID(i as usize), #[trigger] orig.vertices@[i]),
                    ),
                forall|i: int|
                    0 <= i < mapped@.len() ==> {
                        &&& (#[trigger] mapped@[i]).incoming@ == orig.vertices@[i].incoming@
                        &&& mapped@[i].outgoing@ == orig.vertices@[i].outgoing@
                        &&& call_ensures(
                            f,
                            (VertexID(i as usize), orig.vertices@[i]),
                            mapped@[i].data,
                        )
                    },
            decreases vertices@.len(),
        {
            let idx = mapped.len();
            proof {
                assert(vertices@[0] == orig.vertices@[idx as int]);
            }
            let v = vertices.remove(0);
            let inc = v.incoming.clone();
            let outg = v.outgoing.clone();
            proof {
                assert(inc@ =~= v.incoming@);
                assert(outg@ =~= v.outgoing@);
            }
            let data = f(VertexID(idx), v);
            mapped.push(Vertex { incoming: inc, outgoing: outg, data });
            proof {
                assert(vertices@ =~= orig.vertices@.skip(mapped@.len() as int));
            }
        }
        let r = DirectedGraph { vertices: mapped, edges };
        proof {
            if orig.wf() {
                lemma_same_topology_wf(orig, r);
            }
        }
        r
    }

    /// Consumes the graph and produces a new one with identical vertices and
    /// adjacency, where every edge payload is replaced by `f(id, edge)`.
    pub fn map_edges<E2, F: Fn(EdgeID, Edge<E>) -> E2>(self, f: F) -> (r: DirectedGraph<V, E2>)
        requires
            forall|i: int|
                0 <= i < self.edges@.len() ==> call_requires(
                    f,
                    (EdgeID(i as usize), #[trigger] self.edges@[i]),
                ),
        ensures
            r.vertices@ == self.vertices@,
            r.edges@.len() == self.edges@.len(),
            forall|i: int|
                0 <= i < self.edges@.len() ==> {
                    &&& (#[trigger] r.edges@[i]).from == self.edges@[i].from
                    &&& r.edges@[i].to == self.edges@[i].to
                    &&& call_ensures(f, (EdgeID(i as usize), self.edges@[i]), r.edges@[i].data)
                },
            self.wf() ==> r.wf(),
    {
        let ghost orig = self;
        let DirectedGraph { vertices, mut edges } = self;
        let mut mapped: Vec<Edge<E2>> = Vec::new();
        while edges.len() > 0
            invariant
                mapped@.len() + edges@.len() == orig.edges@.len(),
                edges@ == orig.edges@.skip(mapped@.len() as int),
                forall|i: int|
                    0 <= i < orig.edges@.len() ==> call_requires(
                        f,
                        (EdgeID(i as usize), #[trigger] orig.edges@[i]),
                    ),
                forall|i: int|
                    0 <= i < mapped@.len() ==> {
                        &&& (#[trigger] mapped@[i]).from == orig.edges@[i].from
                        &&& mapped@[i].to == orig.edges@[i].to
                        &&& call_ensures(f, (EdgeID(i as usize), orig.edges@[i]), mapped@[i].data)
                    },
            decreases edges@.len(),
        {
            let idx = mapped.len();
            proof {
                assert(edges@[0] == orig.edges@[idx as int]);
            }
            let e = edges.remove(0);
            let from = e.from;
            let to = e.to;
            let data = f(EdgeID(idx), e);
            mapped.push(Edge { from, to, data });
            proof {
                assert(edges@ =~= orig.edges@.skip(mapped@.len() as int));
            }
        }
        let r = DirectedGraph { vertices, edges: mapped };
        proof {
            if orig.wf() {
                lemma_same_topology_wf(orig, r);
            }
        }
        r
    }
}

/// Two graphs with the same vertex and edge counts, the same adjacency
/// sequences, and the same edge endpoints are either both well-formed or
/// both not: well-formedness ignores payloads.
pub proof fn lemma_same_topology_wf<V1, E1, V2, E2>(
    a: DirectedGraph<V1, E1>,
    b: DirectedGraph<V2, E2>,
)
    requires
        a.vertices@.len() == b.vertices@.len(),
        a.edges@.len() == b.edges@.len(),
        forall|i: int|
            0 <= i < a.vertices@.len() ==> {
                &&& (#[trigger] a.vertices@[i]).incoming@ == b.vertices@[i].incoming@
                &&& a.vertices@[i].outgoing@ == b.vertices@[i].outgoing@
            },
        forall|e: int|
            0 <= e < a.edges@.len() ==> {
                &&& (#[trigger] a.edges@[e]).from == b.edges@[e].from
                &&& a.edges@[e].to == b.edges@[e].to
            },
        a.wf(),
    ensures
        b.wf(),
{
    assert forall|e: int| 0 <= e < b.edges@.len() implies {
        &&& (#[trigger] b.edges@[e]).from.0 < b.vertices@.len()
        &&& b.edges@[e].to.0 < b.vertices@.len()
    } by {
        assert(a.edges@[e].from.0 < a.vertices@.len());
        assert(a.edges@[e].to.0 < a.vertices@.len());
    }
    assert forall|v: int, k: int|
        0 <= v < b.vertices@.len() && 0 <= k
            < b.vertices@[v].outgoing@.len() implies #[trigger] b.out_entry_ok(v, k) by {
        assert(a.out_entry_ok(v, k));
        assert(b.vertices@[v].outgoing@[k] == a.vertices@[v].outgoing@[k]);
    }
    assert forall|v: int, k: int|
        0 <= v < b.vertices@.len() && 0 <= k
            < b.vertices@[v].incoming@.len() implies #[trigger] b.in_entry_ok(v, k) by {
        assert(a.in_entry_ok(v, k));
        assert(b.vertices@[v].incoming@[k] == a.vertices@[v].incoming@[k]);
    }
    assert forall|e: int| 0 <= e < b.edges@.len() implies {
        &&& b.vertices@[(#[trigger] b.edges@[e]).from.0 as int].outgoing@.contains(
            EdgeID(e as usize),
        )
        &&& b.vertices@[b.edges@[e].to.0 as int].incoming@.contains(EdgeID(e as usize))
    } by {
        let f0 = a.edges@[e].from.0 as int;
        let t0 = a.edges@[e].to.0 as int;
        assert(a.vertices@[f0].outgoing@.contains(EdgeID(e as usize)));
        assert(a.vertices@[t0].incoming@.contains(EdgeID(e as usize)));
        assert(b.vertices@[f0].outgoing@ == a.vertices@[f0].outgoing@);
        assert(b.vertices@[t0].incoming@ == a.vertices@[t0].incoming@);
    }
}

/// Adjacency invariant: in a well-formed graph — one built exclusively via
/// `add_vertex` and `add_edge` — every edge `e` appears in the outgoing list
/// of its source vertex and in the incoming list of its destination vertex.
pub proof fn lemma_adjacency_invariant<V, E>(g: DirectedGraph<V, E>, e: int)
    requires
        g.wf(),
        0 <= e < g.edges@.len(),
    ensures
        g.vertices@[g.edges@[e].from.0 as int].outgoing@.contains(EdgeID(e as usize)),
        g.vertices@[g.edges@[e].to.0 as int].incoming@.contains(EdgeID(e as usize)),
{
}

} // verus!
