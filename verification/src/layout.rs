//! Ownership resolution and 2-D tree layout for weighted directed graphs.
//!
//! The entry point is [`layout`]: it takes a weighted graph (edge payload = a
//! non-negative integer weight), finds the root by walking first incoming
//! edges backwards from vertex 0, marks for every reachable vertex the single
//! incoming edge lying on the maximum cumulative-weight path from the root
//! (the "owning" edge), and then recursively positions every vertex, each
//! parent centered over the children it owns.
//!
//! Every step is specified by a recursive spec function over [`GraphShape`],
//! the payload-free skeleton of a graph. The spec functions are partial: they
//! return `None` when a traversal would not terminate on the given input
//! (a cycle reachable from the root), when a coordinate or distance would
//! exceed `u32::MAX`, or when some vertex never receives a position (it is
//! not reachable from the root). The executable functions require the spec to
//! succeed and return exactly its value, so a successful layout is pinned
//! down to the single mathematically-defined result.

use vstd::prelude::*;

use crate::graph::{DirectedGraph, Edge, EdgeID, Vertex, VertexID};

verus! {

/// A vertex position in abstract layout units.
#[derive(Copy, Clone, Debug, PartialEq, Eq, Hash, Structural)]
pub struct Point {
    pub x: u32,
    pub y: u32,
}

/// Graph produced by layout: vertex payload (original data, position), edge
/// payload = the plain weight.
pub type LayoutGraph<V> = DirectedGraph<(V, Point), u32>;

/// Layout was invoked on a graph with zero vertices.
#[derive(Copy, Clone, Debug, PartialEq, Eq, Structural)]
pub struct EmptyGraphError;

/// The payload-free skeleton of a graph: adjacency lists, edge endpoints
/// (as plain vertex indices) and edge weights. Both the resolver and the
/// layout pass are specified over this shape, so that graphs that differ only
/// in payloads have, provably, the same root, owners and positions.
#[verifier::ext_equal]
pub struct GraphShape {
    pub out: Seq<Seq<EdgeID>>,
    pub inc: Seq<Seq<EdgeID>>,
    pub efrom: Seq<int>,
    pub eto: Seq<int>,
    pub weight: Seq<u32>,
}

impl GraphShape {
    pub open spec fn vcount(self) -> int {
        self.out.len() as int
    }

    pub open spec fn ecount(self) -> int {
        self.eto.len() as int
    }

    pub open spec fn out_ok(self, v: int, k: int) -> bool {
        let eid = self.out[v][k];
        &&& (eid.0 as int) < self.ecount()
        &&& self.efrom[eid.0 as int] == v
    }

    pub open spec fn in_ok(self, v: int, k: int) -> bool {
        let eid = self.inc[v][k];
        &&& (eid.0 as int) < self.ecount()
        &&& self.eto[eid.0 as int] == v
    }

    /// Mirror of [`DirectedGraph::wf`] on the skeleton.
    pub open spec fn wf(self) -> bool {
        &&& self.out.len() <= usize::MAX
        &&& self.eto.len() <= usize::MAX
        &&& self.inc.len() == self.out.len()
        &&& self.efrom.len() == self.eto.len()
        &&& self.weight.len() == self.eto.len()
        &&& forall|e: int|
            0 <= e < self.ecount() ==> 0 <= #[trigger] self.efrom[e] < self.vcount() && 0
                <= self.eto[e] < self.vcount()
        &&& forall|v: int, k: int|
            0 <= v < self.vcount() && 0 <= k < self.out[v].len() ==> #[trigger] self.out_ok(v, k)
        &&& forall|v: int, k: int|
            0 <= v < self.vcount() && 0 <= k < self.inc[v].len() ==> #[trigger] self.in_ok(v, k)
        &&& forall|e: int|
            0 <= e < self.ecount() ==> #[trigger] self.out[self.efrom[e]].contains(
                EdgeID(e as usize),
            ) && self.inc[self.eto[e]].contains(EdgeID(e as usize))
    }
}

/// The skeleton of a weighted graph (edge payload = weight).
pub open spec fn weighted_shape<V>(g: DirectedGraph<V, u32>) -> GraphShape {
    GraphShape {
        out: Seq::new(g.vertices@.len(), |v: int| g.vertices@[v].outgoing@),
        inc: Seq::new(g.vertices@.len(), |v: int| g.vertices@[v].incoming@),
        efrom: Seq::new(g.edges@.len(), |e: int| g.edges@[e].from.0 as int),
        eto: Seq::new(g.edges@.len(), |e: int| g.edges@[e].to.0 as int),
        weight: Seq::new(g.edges@.len(), |e: int| g.edges@[e].data),
    }
}

/// The skeleton of a marked graph (edge payload = (weight, is-owning)).
pub open spec fn marked_shape<V>(g: DirectedGraph<V, (u32, bool)>) -> GraphShape {
    GraphShape {
        out: Seq::new(g.vertices@.len(), |v: int| g.vertices@[v].outgoing@),
        inc: Seq::new(g.vertices@.len(), |v: int| g.vertices@[v].incoming@),
        efrom: Seq::new(g.edges@.len(), |e: int| g.edges@[e].from.0 as int),
        eto: Seq::new(g.edges@.len(), |e: int| g.edges@[e].to.0 as int),
        weight: Seq::new(g.edges@.len(), |e: int| g.edges@[e].data.0),
    }
}

/// The owning flags of a marked graph, by edge index.
pub open spec fn marked_flags<V>(g: DirectedGraph<V, (u32, bool)>) -> Seq<bool> {
    Seq::new(g.edges@.len(), |e: int| g.edges@[e].data.1)
}

pub proof fn lemma_weighted_shape_wf<V>(g: DirectedGraph<V, u32>)
    requires
        g.wf(),
    ensures
        weighted_shape(g).wf(),
{
    let s = weighted_shape(g);
    vstd::std_specs::vec::axiom_spec_len(&g.vertices);
    vstd::std_specs::vec::axiom_spec_len(&g.edges);
    assert(g.vertices@.len() <= usize::MAX);
    assert(g.edges@.len() <= usize::MAX);
    assert forall|v: int, k: int|
        0 <= v < s.vcount() && 0 <= k < s.out[v].len() implies #[trigger] s.out_ok(v, k) by {
        assert(g.out_entry_ok(v, k));
    }
    assert forall|v: int, k: int|
        0 <= v < s.vcount() && 0 <= k < s.inc[v].len() implies #[trigger] s.in_ok(v, k) by {
        assert(g.in_entry_ok(v, k));
    }
    assert forall|e: int| 0 <= e < s.ecount() implies #[trigger] s.out[s.efrom[e]].contains(
        EdgeID(e as usize),
    ) && s.inc[s.eto[e]].contains(EdgeID(e as usize)) by {
        assert(g.vertices@[g.edges@[e].from.0 as int].outgoing@.contains(EdgeID(e as usize)));
        assert(g.vertices@[g.edges@[e].to.0 as int].incoming@.contains(EdgeID(e as usize)));
    }
}

/// Root selection: starting from vertex `v`, repeatedly follow the first
/// incoming edge backwards until a vertex with no incoming edges is reached.
/// `None` when the walk does not reach such a vertex within `fuel` steps —
/// in particular, on every graph whose backwards walk from `v` cycles.
pub open spec fn root_from(s: GraphShape, v: int, fuel: nat) -> Option<int>
    decreases fuel,
{
    if !(0 <= v < s.vcount()) {
        None
    } else if s.inc[v].len() == 0 {
        Some(v)
    } else {
        let eid = s.inc[v][0];
        if !((eid.0 as int) < s.ecount()) {
            None
        } else if fuel == 0 {
            None
        } else {
            root_from(s, s.efrom[eid.0 as int], (fuel - 1) as nat)
        }
    }
}

/// The layout root of a shape: the backwards walk started at vertex 0. On an
/// acyclic graph a walk of `vcount` steps always suffices, since it can visit
/// each vertex at most once.
pub open spec fn shape_root(s: GraphShape) -> Option<int> {
    root_from(s, 0, s.out.len())
}

/// The running distance/owner table of the resolver: for each vertex index,
/// the best known cumulative weight from the root and the incoming edge that
/// achieved it.
pub type OwnerTable = Seq<Option<(u32, EdgeID)>>;

/// One depth-first resolver pass over the outgoing edges of `v` starting at
/// edge position `i`, with accumulated distance `d`. For each edge `v -> w`
/// of weight `wt`: if `w` has no recorded distance, or `d + wt` is strictly
/// greater than the recorded one, record `(d + wt, edge)` and recurse into
/// `w`; otherwise leave the record unchanged and do not recurse — ties keep
/// the first owner found. `None` when a distance would exceed `u32::MAX`,
/// when the recursion does not settle within `fuel` nested improvements (as
/// on a cycle whose revisits keep improving), or when the shape is not
/// well-formed enough to traverse.
pub open spec fn resolve_from(
    s: GraphShape,
    values: OwnerTable,
    v: int,
    d: u32,
    i: int,
    fuel: nat,
) -> Option<OwnerTable>
    decreases fuel, s.out[v].len() - i,
{
    if !(0 <= v < s.vcount() && 0 <= i <= s.out[v].len()) {
        None
    } else if i == s.out[v].len() {
        Some(values)
    } else {
        let eid = s.out[v][i];
        if !((eid.0 as int) < s.ecount()) {
            None
        } else {
            let w = s.eto[eid.0 as int];
            if !(0 <= w < values.len()) {
                None
            } else if d + s.weight[eid.0 as int] > u32::MAX {
                None
            } else {
                let d2 = (d + s.weight[eid.0 as int]) as u32;
                let better = match values[w] {
                    None => true,
                    Some(p) => p.0 < d2,
                };
                if better {
                    if fuel == 0 {
                        None
                    } else {
                        match resolve_from(
                            s,
                            values.update(w, Some((d2, eid))),
                            w,
                            d2,
                            0,
                            (fuel - 1) as nat,
                        ) {
                            None => None,
                            Some(values2) => resolve_from(s, values2, v, d, i + 1, fuel),
                        }
                    }
                } else {
                    resolve_from(s, values, v, d, i + 1, fuel)
                }
            }
        }
    }
}

/// The owner table with no distances recorded.
pub open spec fn empty_table(s: GraphShape) -> OwnerTable {
    Seq::new(s.out.len(), |i: int| None)
}

/// The resolver's result on a whole shape: run from the root with distance 0.
/// A fuel of `vcount` covers every acyclic input, since the depth of nested
/// strict improvements is bounded by the length of the longest path.
pub open spec fn resolved_values(s: GraphShape) -> Option<OwnerTable> {
    match shape_root(s) {
        None => None,
        Some(root) => resolve_from(s, empty_table(s), root, 0, 0, s.out.len()),
    }
}

/// Edge `e` is owning under table `values`: it is the recorded best incoming
/// edge of its destination vertex.
pub open spec fn edge_owned(s: GraphShape, values: OwnerTable, e: int) -> bool {
    let t = s.eto[e];
    &&& 0 <= t < values.len()
    &&& match values[t] {
        Some(p) => p.1 == EdgeID(e as usize),
        None => false,
    }
}

/// The owning flags derived from an owner table, by edge index.
pub open spec fn owned_flags_of(s: GraphShape, values: OwnerTable) -> Seq<bool> {
    Seq::new(s.eto.len(), |e: int| edge_owned(s, values, e))
}

/// A successful resolver run never changes the length of the owner table.
pub proof fn lemma_resolve_table_len(
    s: GraphShape,
    values: OwnerTable,
    v: int,
    d: u32,
    i: int,
    fuel: nat,
)
    requires
        resolve_from(s, values, v, d, i, fuel) is Some,
    ensures
        resolve_from(s, values, v, d, i, fuel).unwrap().len() == values.len(),
    decreases fuel, s.out[v].len() - i,
{
    if !(0 <= v < s.vcount() && 0 <= i <= s.out[v].len()) {
    } else if i == s.out[v].len() {
    } else {
        let eid = s.out[v][i];
        let w = s.eto[eid.0 as int];
        let d2 = (d + s.weight[eid.0 as int]) as u32;
        let better = match values[w] {
            None => true,
            Some(p) => p.0 < d2,
        };
        if better {
            let values1 = values.update(w, Some((d2, eid)));
            lemma_resolve_table_len(s, values1, w, d2, 0, (fuel - 1) as nat);
            let values2 = resolve_from(s, values1, w, d2, 0, (fuel - 1) as nat).unwrap();
            lemma_resolve_table_len(s, values2, v, d, i + 1, fuel);
        } else {
            lemma_resolve_table_len(s, values, v, d, i + 1, fuel);
        }
    }
}

/// Inserts edge id `x` into a weight-descending list: after every element of
/// weight greater than or equal to `x`'s, before the first strictly lighter
/// one. Equal weights therefore keep their original relative order.
pub open spec fn insert_desc(s: GraphShape, ids: Seq<EdgeID>, x: EdgeID) -> Seq<EdgeID>
    decreases ids.len(),
{
    if ids.len() == 0 {
        seq![x]
    } else if s.weight[ids[0].0 as int] >= s.weight[x.0 as int] {
        seq![ids[0]] + insert_desc(s, ids.skip(1), x)
    } else {
        seq![x] + ids
    }
}

/// Stable sort by weight, descending: insertion sort, left to right.
pub open spec fn sort_desc(s: GraphShape, ids: Seq<EdgeID>) -> Seq<EdgeID>
    decreases ids.len(),
{
    if ids.len() == 0 {
        Seq::empty()
    } else {
        insert_desc(s, sort_desc(s, ids.drop_last()), ids.last())
    }
}

/// The owning outgoing edges among the first `i` outgoing entries of vertex
/// `v`, in insertion order.
pub open spec fn owned_out_prefix(s: GraphShape, owned: Seq<bool>, v: int, i: int) -> Seq<EdgeID>
    decreases i,
{
    if i <= 0 {
        Seq::empty()
    } else {
        let pre = owned_out_prefix(s, owned, v, i - 1);
        let eid = s.out[v][i - 1];
        if (eid.0 as int) < owned.len() && owned[eid.0 as int] {
            pre.push(eid)
        } else {
            pre
        }
    }
}

/// All owning outgoing edges of vertex `v`, in insertion order.
pub open spec fn owned_out(s: GraphShape, owned: Seq<bool>, v: int) -> Seq<EdgeID> {
    owned_out_prefix(s, owned, v, s.out[v].len() as int)
}

/// The state threaded through one layout pass: the partially-built position
/// table plus the largest x and y coordinates assigned so far.
#[verifier::ext_equal]
pub struct LayoutState {
    pub positions: Seq<Option<Point>>,
    pub rightmost: u32,
    pub bottommost: u32,
}

/// Places the owning children of `v` listed in `ids[j..]` (already sorted by
/// weight, descending), left to right. `x_offset` is the running horizontal
/// offset, `sum_x` the sum of the children's final x coordinates, `count`
/// their number. Each child `c` over an edge of weight `wt` is placed at
/// `(parent.x + x_offset, parent.y + 5 * (1 + wt))`, the extents are updated,
/// the child's subtree is laid out recursively, and `x_offset` advances by
/// the returned subtree width. Returns the state and the three accumulators;
/// `None` when a coordinate or accumulator would exceed `u32::MAX` or the
/// recursion does not settle within `fuel` levels.
pub open spec fn place_children(
    s: GraphShape,
    owned: Seq<bool>,
    st: LayoutState,
    v: int,
    ids: Seq<EdgeID>,
    j: int,
    x_offset: u32,
    sum_x: u32,
    count: u32,
    fuel: nat,
) -> Option<(LayoutState, u32, u32, u32)>
    decreases fuel, ids.len() - j,
{
    if !(0 <= j <= ids.len()) {
        None
    } else if j == ids.len() {
        Some((st, x_offset, sum_x, count))
    } else {
        let eid = ids[j];
        if !((eid.0 as int) < s.ecount()) {
            None
        } else {
            let c = s.eto[eid.0 as int];
            let wt = s.weight[eid.0 as int];
            if !(0 <= v < st.positions.len() && 0 <= c < st.positions.len()) {
                None
            } else {
                match st.positions[v] {
                    None => None,
                    Some(pp) => {
                        if pp.x + x_offset > u32::MAX {
                            None
                        } else if pp.y + 5 * (1 + wt) > u32::MAX {
                            None
                        } else {
                            let x = (pp.x + x_offset) as u32;
                            let y = (pp.y + 5 * (1 + wt)) as u32;
                            let st1 = LayoutState {
                                positions: st.positions.update(c, Some(Point { x, y })),
                                rightmost: if x > st.rightmost {
                                    x
                                } else {
                                    st.rightmost
                                },
                                bottommost: if y > st.bottommost {
                                    y
                                } else {
                                    st.bottommost
                                },
                            };
                            if fuel == 0 {
                                None
                            } else {
                                match place_vertex(s, owned, st1, c, (fuel - 1) as nat) {
                                    None => None,
                                    Some((st2, cw)) => {
                                        if !(0 <= c < st2.positions.len()) {
                                            None
                                        } else {
                                            match st2.positions[c] {
                                                None => None,
                                                Some(cp) => {
                                                    if x_offset + cw > u32::MAX {
                                                        None
                                                    } else if sum_x + cp.x > u32::MAX {
                                                        None
                                                    } else if count + 1 > u32::MAX {
                                                        None
                                                    } else {
                                                        place_children(
                                                            s,
                                                            owned,
                                                            st2,
                                                            v,
                                                            ids,
                                                            j + 1,
                                                            (x_offset + cw) as u32,
                                                            (sum_x + cp.x) as u32,
                                                            (count + 1) as u32,
                                                            fuel,
                                                        )
                                                    }
                                                },
                                            }
                                        }
                                    },
                                }
                            }
                        }
                    },
                }
            }
        }
    }
}

/// Lays out the subtree owned by `v`, which must already have a position.
/// Places `v`'s owning children sorted by weight descending; afterwards, if
/// there was at least one child, re-centers `v` at the truncating mean of the
/// children's final x coordinates and returns the accumulated width, else
/// leaves `v` untouched and returns the fixed leaf width of 15.
pub open spec fn place_vertex(
    s: GraphShape,
    owned: Seq<bool>,
    st: LayoutState,
    v: int,
    fuel: nat,
) -> Option<(LayoutState, u32)>
    decreases fuel + 1, 0int,
{
    if !(0 <= v < s.vcount()) {
        None
    } else {
        let ids = sort_desc(s, owned_out(s, owned, v));
        match place_children(s, owned, st, v, ids, 0, 0, 0, 0, fuel) {
            None => None,
            Some((st2, x_offset, sum_x, count)) => {
                if count > 0 {
                    if !(0 <= v < st2.positions.len()) {
                        None
                    } else {
                        match st2.positions[v] {
                            None => None,
                            Some(p) => Some(
                                (
                                    LayoutState {
                                        positions: st2.positions.update(
                                            v,
                                            Some(Point { x: sum_x / count, y: p.y }),
                                        ),
                                        rightmost: st2.rightmost,
                                        bottommost: st2.bottommost,
                                    },
                                    x_offset,
                                ),
                            ),
                        }
                    }
                } else {
                    Some((st2, 15))
                }
            },
        }
    }
}

/// The state a layout pass starts from: the root at (0, 0), no other vertex
/// positioned, extents zero.
pub open spec fn initial_state(s: GraphShape, root: int) -> LayoutState {
    LayoutState {
        positions: Seq::new(
            s.out.len(),
            |i: int|
                if i == root {
                    Some(Point { x: 0, y: 0 })
                } else {
                    None
                },
        ),
        rightmost: 0,
        bottommost: 0,
    }
}

/// A whole layout pass over a marked shape: find the root, lay out its
/// subtree, and require that every vertex received a position — on inputs
/// where some vertex is not reachable from the root over owning edges the
/// pass yields `None`.
pub open spec fn layout_run(s: GraphShape, owned: Seq<bool>) -> Option<LayoutState> {
    match shape_root(s) {
        None => None,
        Some(root) => match place_vertex(s, owned, initial_state(s, root), root, s.out.len()) {
            None => None,
            Some((st, width)) => if st.positions.len() == s.vcount() && (forall|i: int|
                0 <= i < st.positions.len() ==> st.positions[i] is Some) {
                Some(st)
            } else {
                None
            },
        },
    }
}

/// The complete pipeline on a weighted graph: resolve owners from the root,
/// then lay the marked graph out.
pub open spec fn layout_spec<V>(g: DirectedGraph<V, u32>) -> Option<LayoutState> {
    let s = weighted_shape(g);
    match resolved_values(s) {
        None => None,
        Some(values) => layout_run(s, owned_flags_of(s, values)),
    }
}

/// `s` records exactly the adjacency and endpoints of `g` (weights are not
/// constrained, so one shape serves graphs that differ only in payloads).
pub open spec fn shape_matches_topology<V, E>(s: GraphShape, g: DirectedGraph<V, E>) -> bool {
    &&& s.out.len() == g.vertices@.len()
    &&& s.inc.len() == g.vertices@.len()
    &&& s.efrom.len() == g.edges@.len()
    &&& s.eto.len() == g.edges@.len()
    &&& forall|v: int|
        0 <= v < g.vertices@.len() ==> s.out[v] == (#[trigger] g.vertices@[v]).outgoing@ && s.inc[v]
            == g.vertices@[v].incoming@
    &&& forall|e: int|
        0 <= e < g.edges@.len() ==> s.efrom[e] == (#[trigger] g.edges@[e]).from.0 as int && s.eto[e]
            == g.edges@[e].to.0 as int
}

/// Walks first incoming edges backwards from `vertex` to the layout root.
fn find_root_from<V, E>(
    graph: &DirectedGraph<V, E>,
    vertex: VertexID,
    Ghost(s): Ghost<GraphShape>,
    Ghost(fuel): Ghost<nat>,
) -> (r: VertexID)
    requires
        shape_matches_topology(s, *graph),
        vertex.0 < graph.vertices@.len(),
        root_from(s, vertex.0 as int, fuel) is Some,
    ensures
        r.0 as int == root_from(s, vertex.0 as int, fuel).unwrap(),
        r.0 < graph.vertices@.len(),
    decreases fuel,
{
    let v = graph.vertex(vertex);
    if v.incoming.len() == 0 {
        vertex
    } else {
        let eid = v.incoming[0];
        proof {
            assert(eid == s.inc[vertex.0 as int][0]);
            assert((eid.0 as int) < s.ecount() && fuel > 0);
            assert(root_from(s, s.efrom[eid.0 as int], (fuel - 1) as nat) is Some);
            assert(0 <= s.efrom[eid.0 as int] < s.vcount());
        }
        let e = graph.edge(eid);
        find_root_from(graph, e.from, Ghost(s), Ghost((fuel - 1) as nat))
    }
}

/// Depth-first ownership resolution: for every vertex reached from `vertex`,
/// records the incoming edge on the maximum cumulative-weight path seen so
/// far, recursing only when a record is created or strictly improved.
fn find_owning_edges<V>(
    graph: &DirectedGraph<V, u32>,
    values: &mut Vec<Option<(u32, EdgeID)>>,
    vertex: VertexID,
    value: u32,
    Ghost(fuel): Ghost<nat>,
)
    requires
        vertex.0 < graph.vertices@.len(),
        resolve_from(
            weighted_shape(*graph),
            old(values)@,
            vertex.0 as int,
            value,
            0,
            fuel,
        ) is Some,
    ensures
        final(values)@ == resolve_from(
            weighted_shape(*graph),
            old(values)@,
            vertex.0 as int,
            value,
            0,
            fuel,
        ).unwrap(),
    decreases fuel,
{
    let ghost s = weighted_shape(*graph);
    let ghost v = vertex.0 as int;
    let deg = graph.vertex(vertex).outgoing.len();
    let mut i: usize = 0;
    while i < deg
        invariant
            s == weighted_shape(*graph),
            vertex.0 < graph.vertices@.len(),
            v == vertex.0 as int,
            deg == s.out[v].len(),
            i <= deg,
            resolve_from(s, values@, v, value, i as int, fuel) == resolve_from(
                s,
                old(values)@,
                v,
                value,
                0,
                fuel,
            ),
            resolve_from(s, old(values)@, v, value, 0, fuel) is Some,
        decreases deg - i,
    {
        proof {
            assert(resolve_from(s, values@, v, value, i as int, fuel) is Some);
        }
        let eid = graph.vertex(vertex).outgoing[i];
        proof {
            assert(eid == s.out[v][i as int]);
            assert((eid.0 as int) < s.ecount());
        }
        let e = graph.edge(eid);
        proof {
            assert(e.to.0 as int == s.eto[eid.0 as int]);
            assert((e.to.0 as int) < values@.len());
            assert(value + e.data <= u32::MAX);
        }
        let d2 = value + e.data;
        let better = match values[e.to.0] {
            None => true,
            Some(p) => p.0 < d2,
        };
        if better {
            proof {
                assert(fuel > 0);
            }
            let slot = &mut values[e.to.0];
            *slot = Some((d2, eid));
            proof {
                assert(resolve_from(
                    s,
                    values@,
                    e.to.0 as int,
                    d2,
                    0,
                    (fuel - 1) as nat,
                ) is Some);
            }
            find_owning_edges(graph, values, e.to, d2, Ghost((fuel - 1) as nat));
        }
        i += 1;
    }
}

/// Replaces `data[i]` with position `p`.
fn set_position(data: &mut Vec<Option<Point>>, i: usize, p: Point)
    requires
        i < old(data)@.len(),
    ensures
        final(data)@ == old(data)@.update(i as int, Some(p)),
{
    let slot = &mut data[i];
    *slot = Some(p);
}

/// `insert_desc` places `x` exactly at the first index whose weight is
/// strictly below `x`'s.
proof fn lemma_insert_desc_at(s: GraphShape, ids: Seq<EdgeID>, x: EdgeID, p: int)
    requires
        0 <= p <= ids.len(),
        forall|k: int|
            0 <= k < p ==> s.weight[(#[trigger] ids[k]).0 as int] >= s.weight[x.0 as int],
        p < ids.len() ==> s.weight[ids[p].0 as int] < s.weight[x.0 as int],
    ensures
        insert_desc(s, ids, x) == ids.insert(p, x),
    decreases p,
{
    if ids.len() == 0 {
        assert(insert_desc(s, ids, x) == seq![x]);
        assert(ids.insert(0, x) =~= seq![x]);
    } else if p == 0 {
        assert(insert_desc(s, ids, x) == seq![x] + ids);
        assert(ids.insert(0, x) =~= seq![x] + ids);
    } else {
        assert(s.weight[ids[0].0 as int] >= s.weight[x.0 as int]);
        assert forall|k: int| 0 <= k < p - 1 implies s.weight[(#[trigger] ids.skip(1)[k]).0 as int]
            >= s.weight[x.0 as int] by {
            assert(ids.skip(1)[k] == ids[k + 1]);
        }
        assert(p - 1 < ids.skip(1).len() ==> s.weight[ids.skip(1)[p - 1].0 as int] < s.weight[x.0
            as int]);
        lemma_insert_desc_at(s, ids.skip(1), x, p - 1);
        assert(insert_desc(s, ids, x) == seq![ids[0]] + ids.skip(1).insert(p - 1, x));
        assert(ids.insert(p, x) =~= seq![ids[0]] + ids.skip(1).insert(p - 1, x));
    }
}

/// Stable insertion sort of edge ids by weight, descending.
fn sort_by_weight_desc<V>(graph: &DirectedGraph<V, (u32, bool)>, ids: Vec<EdgeID>) -> (r: Vec<
    EdgeID,
>)
    requires
        forall|k: int| 0 <= k < ids@.len() ==> (#[trigger] ids@[k]).0 < graph.edges@.len(),
    ensures
        r@ == sort_desc(marked_shape(*graph), ids@),
        forall|k: int| 0 <= k < r@.len() ==> (#[trigger] r@[k]).0 < graph.edges@.len(),
{
    let ghost s = marked_shape(*graph);
    let mut sorted: Vec<EdgeID> = Vec::new();
    let mut k: usize = 0;
    while k < ids.len()
        invariant
            k <= ids@.len(),
            s == marked_shape(*graph),
            forall|t: int| 0 <= t < ids@.len() ==> (#[trigger] ids@[t]).0 < graph.edges@.len(),
            forall|t: int| 0 <= t < sorted@.len() ==> (#[trigger] sorted@[t]).0
                < graph.edges@.len(),
            sorted@ == sort_desc(s, ids@.take(k as int)),
        decreases ids@.len() - k,
    {
        let eid = ids[k];
        let wgt = graph.edge(eid).data.0;
        proof {
            assert(wgt == s.weight[eid.0 as int]);
        }
        let mut p: usize = 0;
        while p < sorted.len() && graph.edge(sorted[p]).data.0 >= wgt
            invariant
                p <= sorted@.len(),
                s == marked_shape(*graph),
                wgt == s.weight[eid.0 as int],
                forall|t: int| 0 <= t < sorted@.len() ==> (#[trigger] sorted@[t]).0
                    < graph.edges@.len(),
                forall|t: int| 0 <= t < p ==> s.weight[(#[trigger] sorted@[t]).0 as int]
                    >= s.weight[eid.0 as int],
            decreases sorted@.len() - p,
        {
            p += 1;
        }
        let ghost pre = sorted@;
        proof {
            lemma_insert_desc_at(s, pre, eid, p as int);
        }
        sorted.insert(p, eid);
        proof {
            assert(ids@.take(k as int + 1).drop_last() =~= ids@.take(k as int));
            assert(ids@.take(k as int + 1).last() == ids@[k as int]);
            assert(sorted@ == insert_desc(s, sort_desc(s, ids@.take(k as int)), eid));
            assert(sorted@ == sort_desc(s, ids@.take(k as int + 1)));
            assert forall|t: int| 0 <= t < sorted@.len() implies (#[trigger] sorted@[t]).0
                < graph.edges@.len() by {
                if t < p as int {
                    assert(sorted@[t] == pre[t]);
                } else if t == p as int {
                    assert(sorted@[t] == eid);
                } else {
                    assert(sorted@[t] == pre[t - 1]);
                }
            }
        }
        k += 1;
    }
    proof {
        assert(ids@.take(ids@.len() as int) =~= ids@);
    }
    sorted
}

/// The mutable state of one layout invocation: the extents seen so far and
/// the partially-built position table, indexed by vertex.
struct LayoutContext {
    rightmost: u32,
    bottommost: u32,
    new_data: Vec<Option<Point>>,
}

impl LayoutContext {
    spec fn st(self) -> LayoutState {
        LayoutState {
            positions: self.new_data@,
            rightmost: self.rightmost,
            bottommost: self.bottommost,
        }
    }
}

/// Positions the subtree owned by `vertex` (which must already be placed)
/// and returns its width; mirrors [`place_vertex`] exactly.
fn layout_vertex<V>(
    context: &mut LayoutContext,
    graph: &DirectedGraph<V, (u32, bool)>,
    vertex: VertexID,
    Ghost(fuel): Ghost<nat>,
) -> (width: u32)
    requires
        graph.wf(),
        vertex.0 < graph.vertices@.len(),
        place_vertex(
            marked_shape(*graph),
            marked_flags(*graph),
            old(context).st(),
            vertex.0 as int,
            fuel,
        ) is Some,
    ensures
        ({
            let res = place_vertex(
                marked_shape(*graph),
                marked_flags(*graph),
                old(context).st(),
                vertex.0 as int,
                fuel,
            ).unwrap();
            final(context).st() == res.0 && width == res.1
        }),
    decreases fuel,
{
    let ghost s = marked_shape(*graph);
    let ghost owned = marked_flags(*graph);
    let ghost st0 = context.st();
    let ghost v = vertex.0 as int;

    let deg = graph.vertex(vertex).outgoing.len();
    let mut owned_ids: Vec<EdgeID> = Vec::new();
    let mut k: usize = 0;
    while k < deg
        invariant
            graph.wf(),
            s == marked_shape(*graph),
            owned == marked_flags(*graph),
            vertex.0 < graph.vertices@.len(),
            v == vertex.0 as int,
            deg == s.out[v].len(),
            k <= deg,
            owned_ids@ == owned_out_prefix(s, owned, v, k as int),
            forall|t: int| 0 <= t < owned_ids@.len() ==> (#[trigger] owned_ids@[t]).0
                < graph.edges@.len(),
        decreases deg - k,
    {
        let eid = graph.vertex(vertex).outgoing[k];
        proof {
            assert(graph.out_entry_ok(v, k as int));
            assert(eid == s.out[v][k as int]);
        }
        if graph.edge(eid).data.1 {
            owned_ids.push(eid);
        }
        proof {
            assert(owned_ids@ == owned_out_prefix(s, owned, v, k as int + 1));
        }
        k += 1;
    }
    let sorted = sort_by_weight_desc(graph, owned_ids);
    let ghost ids = sort_desc(s, owned_out(s, owned, v));
    proof {
        assert(sorted@ == ids);
    }

    let mut x_offset: u32 = 0;
    let mut sum_children_x: u32 = 0;
    let mut owned_children: u32 = 0;
    let mut j: usize = 0;
    while j < sorted.len()
        invariant
            graph.wf(),
            s == marked_shape(*graph),
            owned == marked_flags(*graph),
            vertex.0 < graph.vertices@.len(),
            v == vertex.0 as int,
            sorted@ == ids,
            forall|t: int| 0 <= t < sorted@.len() ==> (#[trigger] sorted@[t]).0
                < graph.edges@.len(),
            j <= sorted@.len(),
            place_children(
                s,
                owned,
                context.st(),
                v,
                ids,
                j as int,
                x_offset,
                sum_children_x,
                owned_children,
                fuel,
            ) == place_children(s, owned, st0, v, ids, 0, 0, 0, 0, fuel),
            place_children(s, owned, st0, v, ids, 0, 0, 0, 0, fuel) is Some,
        decreases sorted@.len() - j,
    {
        proof {
            assert(place_children(
                s,
                owned,
                context.st(),
                v,
                ids,
                j as int,
                x_offset,
                sum_children_x,
                owned_children,
                fuel,
            ) is Some);
        }
        let ghost stj = context.st();
        let eid = sorted[j];
        let e = graph.edge(eid);
        proof {
            assert(e.to.0 as int == s.eto[eid.0 as int]);
            assert(e.data.0 == s.weight[eid.0 as int]);
            assert(vertex.0 < context.new_data@.len());
            assert(e.to.0 < context.new_data@.len());
            assert(context.new_data@[v] is Some);
        }
        let pp = context.new_data[vertex.0].unwrap();
        proof {
            assert(pp.x + x_offset <= u32::MAX);
            assert(pp.y + 5 * (1 + e.data.0) <= u32::MAX);
            assert(fuel > 0);
        }
        let x = pp.x + x_offset;
        if x > context.rightmost {
            context.rightmost = x;
        }
        let y = pp.y + 5 * (1 + e.data.0);
        if y > context.bottommost {
            context.bottommost = y;
        }
        set_position(&mut context.new_data, e.to.0, Point { x, y });
        let ghost st1 = LayoutState {
            positions: stj.positions.update(e.to.0 as int, Some(Point { x, y })),
            rightmost: if x > stj.rightmost {
                x
            } else {
                stj.rightmost
            },
            bottommost: if y > stj.bottommost {
                y
            } else {
                stj.bottommost
            },
        };
        proof {
            assert(context.st() =~= st1);
            assert(place_vertex(s, owned, st1, e.to.0 as int, (fuel - 1) as nat) is Some);
            assert(e.to.0 < graph.vertices@.len());
        }
        let cw = layout_vertex(context, graph, e.to, Ghost((fuel - 1) as nat));
        let ghost st2 = place_vertex(s, owned, st1, e.to.0 as int, (fuel - 1) as nat).unwrap().0;
        proof {
            assert(context.st() == st2);
            assert((e.to.0 as int) < st2.positions.len());
            assert(st2.positions[e.to.0 as int] is Some);
            assert(x_offset + cw <= u32::MAX);
        }
        let cp = context.new_data[e.to.0].unwrap();
        proof {
            assert(sum_children_x + cp.x <= u32::MAX);
            assert(owned_children + 1 <= u32::MAX);
        }
        x_offset = x_offset + cw;
        sum_children_x = sum_children_x + cp.x;
        owned_children = owned_children + 1;
        j += 1;
    }
    proof {
        assert(place_children(
            s,
            owned,
            context.st(),
            v,
            ids,
            j as int,
            x_offset,
            sum_children_x,
            owned_children,
            fuel,
        ) == Some((context.st(), x_offset, sum_children_x, owned_children)));
        assert(place_vertex(s, owned, st0, v, fuel) is Some);
    }
    if owned_children > 0 {
        proof {
            assert(vertex.0 < context.new_data@.len());
            assert(context.new_data@[v] is Some);
        }
        let p = context.new_data[vertex.0].unwrap();
        set_position(
            &mut context.new_data,
            vertex.0,
            Point { x: sum_children_x / owned_children, y: p.y },
        );
        proof {
            assert(context.st() =~= place_vertex(s, owned, st0, v, fuel).unwrap().0);
        }
        x_offset
    } else {
        proof {
            assert(context.st() == place_vertex(s, owned, st0, v, fuel).unwrap().0);
        }
        15
    }
}

/// The output graph `lg` is `g` with every vertex payload extended by its
/// position from `st` and every edge payload reduced to the plain weight;
/// ids and adjacency are untouched.
pub open spec fn positions_applied<V>(
    g: DirectedGraph<V, (u32, bool)>,
    st: LayoutState,
    lg: LayoutGraph<V>,
) -> bool {
    &&& lg.vertices@.len() == g.vertices@.len()
    &&& forall|i: int|
        0 <= i < g.vertices@.len() ==> {
            &&& (#[trigger] lg.vertices@[i]).incoming@ == g.vertices@[i].incoming@
            &&& lg.vertices@[i].outgoing@ == g.vertices@[i].outgoing@
            &&& lg.vertices@[i].data == (g.vertices@[i].data, st.positions[i].unwrap())
        }
    &&& lg.edges@.len() == g.edges@.len()
    &&& forall|e: int|
        0 <= e < g.edges@.len() ==> {
            &&& (#[trigger] lg.edges@[e]).from == g.edges@[e].from
            &&& lg.edges@[e].to == g.edges@[e].to
            &&& lg.edges@[e].data == g.edges@[e].data.0
        }
}

/// Lays out a marked graph: finds the root, positions every vertex, and
/// rebuilds the graph with positions attached and the owning flags dropped.
fn do_layout<V>(graph: DirectedGraph<V, (u32, bool)>) -> (r: (LayoutGraph<V>, u32, u32))
    requires
        graph.wf(),
        graph.vertices@.len() > 0,
        layout_run(marked_shape(graph), marked_flags(graph)) is Some,
    ensures
        ({
            let st = layout_run(marked_shape(graph), marked_flags(graph)).unwrap();
            &&& positions_applied(graph, st, r.0)
            &&& r.0.wf()
            &&& r.1 == st.rightmost
            &&& r.2 == st.bottommost
        }),
{
    let ghost g0 = graph;
    let ghost s = marked_shape(graph);
    let ghost owned = marked_flags(graph);
    proof {
        assert(shape_matches_topology(s, graph));
        assert(root_from(s, 0, s.out.len()) is Some);
    }
    let root = find_root_from(&graph, VertexID(0), Ghost(s), Ghost(s.out.len()));
    let ghost rt = root.0 as int;
    proof {
        assert(Some(rt) == shape_root(s));
    }

    let n = graph.vertices.len();
    let mut new_data: Vec<Option<Point>> = Vec::new();
    while new_data.len() < n
        invariant
            new_data@.len() <= n,
            forall|i: int| 0 <= i < new_data@.len() ==> new_data@[i] is None,
        decreases n - new_data@.len(),
    {
        new_data.push(None);
    }
    set_position(&mut new_data, root.0, Point { x: 0, y: 0 });
    let mut context = LayoutContext { rightmost: 0, bottommost: 0, new_data };
    proof {
        assert(context.st() =~= initial_state(s, rt));
        assert(place_vertex(s, owned, initial_state(s, rt), rt, s.out.len()) is Some);
    }
    let _ = layout_vertex(&mut context, &graph, root, Ghost(s.out.len()));
    let ghost st = layout_run(s, owned).unwrap();
    proof {
        assert(context.st() == st);
    }

    let rightmost = context.rightmost;
    let bottommost = context.bottommost;
    let new_data = context.new_data;
    let strip = (|id: EdgeID, e: Edge<(u32, bool)>| -> (r: u32)
        ensures
            r == e.data.0,
        { e.data.0 });
    let weights_only = graph.map_edges(strip);
    let attach = (|id: VertexID, vx: Vertex<V>| -> (r: (V, Point))
        requires
            id.0 < new_data@.len(),
            new_data@[id.0 as int] is Some,
        ensures
            r == (vx.data, new_data@[id.0 as int].unwrap()),
        { (vx.data, new_data[id.0].unwrap()) });
    let result = weights_only.map_vertices(attach);
    (result, rightmost, bottommost)
}

/// What a successful layout returns: the graph is `g` with every vertex
/// payload extended by the position that [`layout_spec`] assigns and every
/// edge keeping its plain weight; the two extents are the spec's.
pub open spec fn layout_output_ok<V>(
    g: DirectedGraph<V, u32>,
    lg: LayoutGraph<V>,
    width: u32,
    height: u32,
) -> bool {
    &&& layout_spec(g) is Some
    &&& ({
        let st = layout_spec(g).unwrap();
        &&& lg.wf()
        &&& lg.vertices@.len() == g.vertices@.len()
        &&& (forall|i: int|
            0 <= i < g.vertices@.len() ==> {
                &&& (#[trigger] lg.vertices@[i]).incoming@ == g.vertices@[i].incoming@
                &&& lg.vertices@[i].outgoing@ == g.vertices@[i].outgoing@
                &&& lg.vertices@[i].data == (g.vertices@[i].data, st.positions[i].unwrap())
            })
        &&& lg.edges@.len() == g.edges@.len()
        &&& (forall|e: int|
            0 <= e < g.edges@.len() ==> {
                &&& (#[trigger] lg.edges@[e]).from == g.edges@[e].from
                &&& lg.edges@[e].to == g.edges@[e].to
                &&& lg.edges@[e].data == g.edges@[e].data
            })
        &&& width == st.rightmost
        &&& height == st.bottommost
    })
}

/// Lays out a weighted graph: resolves, for every vertex reachable from the
/// root, the single incoming edge on the maximum cumulative-weight path, then
/// recursively positions every vertex below its owning parent, sorted by edge
/// weight descending, each parent centered over its children. Returns the
/// positioned graph and the canvas extents, or [`EmptyGraphError`] if — and
/// only if — the graph has no vertices.
///
/// The traversals assume an acyclic graph whose vertices are all reachable
/// from the root and whose coordinates fit in `u32`; that is exactly what
/// `layout_spec(graph) is Some` expresses.
pub fn layout<V>(graph: DirectedGraph<V, u32>) -> (r: Result<
    (LayoutGraph<V>, u32, u32),
    EmptyGraphError,
>)
    requires
        graph.wf(),
        graph.vertices@.len() > 0 ==> layout_spec(graph) is Some,
    ensures
        r is Err <==> graph.vertices@.len() == 0,
        r matches Ok(out) ==> layout_output_ok(graph, out.0, out.1, out.2),
{
    let ghost g0 = graph;
    let ghost s = weighted_shape(graph);
    if graph.vertices.len() == 0 {
        return Err(EmptyGraphError);
    }
    proof {
        lemma_weighted_shape_wf(g0);
        assert(shape_matches_topology(s, graph));
        assert(resolved_values(s) is Some);
        assert(root_from(s, 0, s.out.len()) is Some);
    }
    let root = find_root_from(&graph, VertexID(0), Ghost(s), Ghost(s.out.len()));
    let ghost rt = root.0 as int;
    proof {
        assert(Some(rt) == shape_root(s));
    }

    let n = graph.vertices.len();
    let mut values: Vec<Option<(u32, EdgeID)>> = Vec::new();
    while values.len() < n
        invariant
            values@.len() <= n,
            forall|i: int| 0 <= i < values@.len() ==> values@[i] is None,
        decreases n - values@.len(),
    {
        values.push(None);
    }
    proof {
        assert(values@ =~= empty_table(s));
        assert(resolve_from(s, values@, rt, 0, 0, s.out.len()) is Some);
    }
    let ghost table0 = values@;
    find_owning_edges(&graph, &mut values, root, 0, Ghost(s.out.len()));
    let ghost vals = resolved_values(s).unwrap();
    proof {
        assert(values@ == vals);
        lemma_resolve_table_len(s, table0, rt, 0, 0, s.out.len());
        assert(values@.len() == n);
    }

    let mark = (|id: EdgeID, e: Edge<u32>| -> (r: (u32, bool))
        requires
            e.to.0 < values@.len(),
        ensures
            r.0 == e.data,
            r.1 == edge_owned_by(values@, e.to.0 as int, id),
        {
            let flag = match values[e.to.0] {
                Some(p) => p.1 == id,
                None => false,
            };
            (e.data, flag)
        });
    proof {
        assert forall|i: int| 0 <= i < g0.edges@.len() implies call_requires(
            mark,
            (EdgeID(i as usize), #[trigger] g0.edges@[i]),
        ) by {
            assert(g0.edges@[i].to.0 < g0.vertices@.len());
        }
    }
    let og = graph.map_edges(mark);
    proof {
        assert(marked_shape(og) =~~= s);
        assert forall|e: int| 0 <= e < og.edges@.len() implies marked_flags(og)[e] == owned_flags_of(
            s,
            vals,
        )[e] by {
            assert(call_ensures(mark, (EdgeID(e as usize), g0.edges@[e]), og.edges@[e].data));
            assert(og.edges@[e].data.1 == edge_owned_by(vals, g0.edges@[e].to.0 as int, EdgeID(e as usize)));
            assert(edge_owned(s, vals, e) == edge_owned_by(vals, s.eto[e], EdgeID(e as usize)));
        }
        assert(marked_flags(og) =~= owned_flags_of(s, vals));
        assert(layout_run(marked_shape(og), marked_flags(og)) is Some);
    }
    let (lg, width, height) = do_layout(og);
    proof {
        let st = layout_spec(g0).unwrap();
        assert(st == layout_run(marked_shape(og), marked_flags(og)).unwrap());
        assert(positions_applied(og, st, lg));
        assert forall|e: int| 0 <= e < g0.edges@.len() implies {
            &&& (#[trigger] lg.edges@[e]).from == g0.edges@[e].from
            &&& lg.edges@[e].to == g0.edges@[e].to
            &&& lg.edges@[e].data == g0.edges@[e].data
        } by {
            assert(call_ensures(mark, (EdgeID(e as usize), g0.edges@[e]), og.edges@[e].data));
        }
    }
    Ok((lg, width, height))
}

/// Edge `eid` pointing at vertex `t` is the recorded owner of `t`.
pub open spec fn edge_owned_by(values: OwnerTable, t: int, eid: EdgeID) -> bool {
    &&& 0 <= t < values.len()
    &&& match values[t] {
        Some(p) => p.1 == eid,
        None => false,
    }
}

/// Determinism: two outputs that both satisfy `layout`'s postcondition for
/// the same input graph carry identical positions and identical extents —
/// the postcondition pins the output to `layout_spec`, a function of the
/// input graph alone.
pub proof fn lemma_layout_deterministic<V>(
    g: DirectedGraph<V, u32>,
    lg1: LayoutGraph<V>,
    w1: u32,
    h1: u32,
    lg2: LayoutGraph<V>,
    w2: u32,
    h2: u32,
)
    requires
        layout_output_ok(g, lg1, w1, h1),
        layout_output_ok(g, lg2, w2, h2),
    ensures
        w1 == w2,
        h1 == h2,
        lg1.vertices@.len() == lg2.vertices@.len(),
        forall|i: int|
            0 <= i < lg1.vertices@.len() ==> (#[trigger] lg1.vertices@[i]).data
                == lg2.vertices@[i].data,
{
}

/// Tie-break stability: a successful resolver run replaces a recorded owner
/// only for a strictly greater cumulative distance. In particular, a later
/// candidate path of equal cumulative distance leaves the first recorded
/// owner in place.
pub proof fn lemma_tie_break_stability(
    s: GraphShape,
    values: OwnerTable,
    v: int,
    d: u32,
    i: int,
    fuel: nat,
    w: int,
)
    requires
        resolve_from(s, values, v, d, i, fuel) is Some,
        0 <= w < values.len(),
        values[w] is Some,
    ensures
        ({
            let res = resolve_from(s, values, v, d, i, fuel).unwrap();
            &&& res[w] is Some
            &&& (res[w] == values[w] || res[w].unwrap().0 > values[w].unwrap().0)
        }),
    decreases fuel, s.out[v].len() - i,
{
    lemma_resolve_table_len(s, values, v, d, i, fuel);
    if !(0 <= v < s.vcount() && 0 <= i <= s.out[v].len()) {
    } else if i == s.out[v].len() {
    } else {
        let eid = s.out[v][i];
        let t = s.eto[eid.0 as int];
        let d2 = (d + s.weight[eid.0 as int]) as u32;
        let better = match values[t] {
            None => true,
            Some(p) => p.0 < d2,
        };
        if better {
            let values1 = values.update(t, Some((d2, eid)));
            lemma_resolve_table_len(s, values1, t, d2, 0, (fuel - 1) as nat);
            lemma_tie_break_stability(s, values1, t, d2, 0, (fuel - 1) as nat, w);
            let values2 = resolve_from(s, values1, t, d2, 0, (fuel - 1) as nat).unwrap();
            lemma_tie_break_stability(s, values2, v, d, i + 1, fuel, w);
        } else {
            lemma_tie_break_stability(s, values, v, d, i + 1, fuel, w);
        }
    }
}

/// Edge `e` leads from vertex `a` to vertex `b`.
pub open spec fn edge_connects(s: GraphShape, e: int, a: int, b: int) -> bool {
    &&& 0 <= e < s.ecount()
    &&& s.efrom[e] == a
    &&& s.eto[e] == b
}

/// `p` is a walk: a non-empty sequence of vertices, consecutive ones joined
/// by an edge.
/// Some edge leads from `a` to `b`.
pub open spec fn connected(s: GraphShape, a: int, b: int) -> bool {
    exists|e: int| #[trigger] edge_connects(s, e, a, b)
}

pub open spec fn is_walk(s: GraphShape, p: Seq<int>) -> bool {
    &&& p.len() >= 1
    &&& forall|k: int| 0 <= k < p.len() ==> 0 <= #[trigger] p[k] < s.vcount()
    &&& forall|k: int| 0 <= k < p.len() - 1 ==> connected(s, #[trigger] p[k], p[k + 1])
}

/// Vertex `b` is reachable from vertex `a` (in zero or more steps).
pub open spec fn reaches(s: GraphShape, a: int, b: int) -> bool {
    exists|p: Seq<int>| is_walk(s, p) && p.first() == a && p.last() == b
}

/// No walk of two or more vertices returns to its starting point.
pub open spec fn acyclic(s: GraphShape) -> bool {
    forall|p: Seq<int>| is_walk(s, p) && p.len() >= 2 ==> p.first() != p.last()
}

pub proof fn lemma_reaches_refl(s: GraphShape, a: int)
    requires
        0 <= a < s.vcount(),
    ensures
        reaches(s, a, a),
{
    let p = seq![a];
    assert(p[0] == a);
    assert(is_walk(s, p));
    assert(p.first() == a && p.last() == a);
}

pub proof fn lemma_reaches_step(s: GraphShape, a: int, b: int, e: int, c: int)
    requires
        reaches(s, a, b),
        edge_connects(s, e, b, c),
        0 <= c < s.vcount(),
    ensures
        reaches(s, a, c),
{
    let p = choose|p: Seq<int>| is_walk(s, p) && p.first() == a && p.last() == b;
    let q = p.push(c);
    assert forall|k: int| 0 <= k < q.len() - 1 implies connected(s, #[trigger] q[k], q[k + 1]) by {
        if k < p.len() - 1 {
            assert(q[k] == p[k] && q[k + 1] == p[k + 1]);
            assert(connected(s, p[k], p[k + 1]));
        } else {
            assert(q[k] == b && q[k + 1] == c);
            assert(edge_connects(s, e, b, c));
        }
    }
    assert(is_walk(s, q) && q.first() == a && q.last() == c);
}

/// Reaching a vertex that has an edge back to `r` contradicts acyclicity,
/// so no such pair exists.
proof fn lemma_no_edge_back(s: GraphShape, r: int, u: int, e: int)
    requires
        acyclic(s),
        edge_connects(s, e, u, r),
        0 <= r < s.vcount(),
    ensures
        !reaches(s, r, u),
{
    if reaches(s, r, u) {
        let p = choose|p: Seq<int>| is_walk(s, p) && p.first() == r && p.last() == u;
        let q = p.push(r);
        assert forall|k: int| 0 <= k < q.len() - 1 implies connected(s, #[trigger] q[k], q[k + 1]) by {
            if k < p.len() - 1 {
                assert(q[k] == p[k] && q[k + 1] == p[k + 1]);
                assert(connected(s, p[k], p[k + 1]));
            } else {
                assert(q[k] == u && q[k + 1] == r);
                assert(edge_connects(s, e, u, r));
            }
        }
        assert(is_walk(s, q) && q.len() >= 2 && q.first() == r && q.last() == r);
    }
}

/// Every recorded owner is a valid edge that ends at the vertex it is
/// recorded for and starts at a vertex reachable from `r`.
pub open spec fn table_ok(s: GraphShape, r: int, values: OwnerTable) -> bool {
    &&& values.len() == s.vcount()
    &&& forall|w: int|
        0 <= w < values.len() ==> match #[trigger] values[w] {
            Some(p) => {
                &&& 0 <= (p.1.0 as int) < s.ecount()
                &&& s.eto[p.1.0 as int] == w
                &&& reaches(s, r, s.efrom[p.1.0 as int])
            },
            None => true,
        }
}

/// A successful resolver run started at a vertex reachable from `r`
/// preserves `table_ok`.
pub proof fn lemma_resolve_sound(
    s: GraphShape,
    r: int,
    values: OwnerTable,
    v: int,
    d: u32,
    i: int,
    fuel: nat,
)
    requires
        s.wf(),
        resolve_from(s, values, v, d, i, fuel) is Some,
        table_ok(s, r, values),
        0 <= v < s.vcount(),
        reaches(s, r, v),
    ensures
        table_ok(s, r, resolve_from(s, values, v, d, i, fuel).unwrap()),
    decreases fuel, s.out[v].len() - i,
{
    if i == s.out[v].len() {
    } else {
        let eid = s.out[v][i];
        assert(s.out_ok(v, i));
        let t = s.eto[eid.0 as int];
        let d2 = (d + s.weight[eid.0 as int]) as u32;
        let better = match values[t] {
            None => true,
            Some(p) => p.0 < d2,
        };
        if better {
            let values1 = values.update(t, Some((d2, eid)));
            assert(edge_connects(s, eid.0 as int, v, t));
            lemma_reaches_step(s, r, v, eid.0 as int, t);
            assert(table_ok(s, r, values1));
            lemma_resolve_sound(s, r, values1, t, d2, 0, (fuel - 1) as nat);
            let values2 = resolve_from(s, values1, t, d2, 0, (fuel - 1) as nat).unwrap();
            lemma_resolve_table_len(s, values1, t, d2, 0, (fuel - 1) as nat);
            lemma_resolve_sound(s, r, values2, v, d, i + 1, fuel);
        } else {
            lemma_resolve_sound(s, r, values, v, d, i + 1, fuel);
        }
    }
}

/// Every outgoing edge of `x` leads to a vertex with a recorded owner.
pub open spec fn children_recorded(s: GraphShape, values: OwnerTable, x: int) -> bool {
    forall|k: int|
        0 <= k < s.out[x].len() ==> {
            let t = s.eto[(#[trigger] s.out[x][k]).0 as int];
            &&& 0 <= t < values.len()
            &&& values[t] is Some
        }
}

/// The depth-first closure argument: on return from a resolver frame, every
/// recorded vertex outside the set of still-open ancestor frames has all of
/// its children recorded, and the targets of the edges this frame processed
/// are recorded.
proof fn lemma_resolve_closed(
    s: GraphShape,
    values: OwnerTable,
    v: int,
    d: u32,
    i: int,
    fuel: nat,
    open_set: Set<int>,
)
    requires
        s.wf(),
        resolve_from(s, values, v, d, i, fuel) is Some,
        values.len() == s.vcount(),
        0 <= v < s.vcount(),
        open_set.contains(v),
        forall|x: int|
            0 <= x < values.len() && values[x] is Some && !open_set.contains(x)
                ==> children_recorded(s, values, x),
    ensures
        ({
            let res = resolve_from(s, values, v, d, i, fuel).unwrap();
            &&& res.len() == values.len()
            &&& (forall|x: int| 0 <= x < values.len() && values[x] is Some ==> res[x] is Some)
            &&& (forall|x: int|
                0 <= x < res.len() && res[x] is Some && !open_set.contains(x)
                    ==> children_recorded(s, res, x))
            &&& (forall|k: int|
                i <= k < s.out[v].len() ==> {
                    let t = s.eto[(#[trigger] s.out[v][k]).0 as int];
                    &&& 0 <= t < res.len()
                    &&& res[t] is Some
                })
        }),
    decreases fuel, s.out[v].len() - i,
{
    lemma_resolve_table_len(s, values, v, d, i, fuel);
    if i == s.out[v].len() {
    } else {
        let eid = s.out[v][i];
        assert(s.out_ok(v, i));
        let t = s.eto[eid.0 as int];
        let d2 = (d + s.weight[eid.0 as int]) as u32;
        let better = match values[t] {
            None => true,
            Some(p) => p.0 < d2,
        };
        if better {
            let values1 = values.update(t, Some((d2, eid)));
            let open2 = open_set.insert(t);
            assert forall|x: int|
                0 <= x < values1.len() && values1[x] is Some && !open2.contains(
                    x,
                ) implies children_recorded(s, values1, x) by {
                assert(x != t);
                assert(values[x] is Some && !open_set.contains(x));
                assert(children_recorded(s, values, x));
                assert forall|k: int| 0 <= k < s.out[x].len() implies {
                    let t2 = s.eto[(#[trigger] s.out[x][k]).0 as int];
                    &&& 0 <= t2 < values1.len()
                    &&& values1[t2] is Some
                } by {
                    let t2 = s.eto[s.out[x][k].0 as int];
                    assert(values[t2] is Some);
                }
            }
            lemma_resolve_closed(s, values1, t, d2, 0, (fuel - 1) as nat, open2);
            let values2 = resolve_from(s, values1, t, d2, 0, (fuel - 1) as nat).unwrap();
            assert forall|x: int|
                0 <= x < values2.len() && values2[x] is Some && !open_set.contains(
                    x,
                ) implies children_recorded(s, values2, x) by {
                if open2.contains(x) {
                    assert(x == t);
                    assert forall|k: int| 0 <= k < s.out[x].len() implies {
                        let t2 = s.eto[(#[trigger] s.out[x][k]).0 as int];
                        &&& 0 <= t2 < values2.len()
                        &&& values2[t2] is Some
                    } by {}
                } else {
                    assert(children_recorded(s, values2, x));
                }
            }
            lemma_resolve_closed(s, values2, v, d, i + 1, fuel, open_set);
            let res = resolve_from(s, values2, v, d, i + 1, fuel).unwrap();
            assert forall|k: int| i <= k < s.out[v].len() implies {
                let t3 = s.eto[(#[trigger] s.out[v][k]).0 as int];
                &&& 0 <= t3 < res.len()
                &&& res[t3] is Some
            } by {
                if k == i {
                    assert(values1[t] is Some);
                    assert(values2[t] is Some);
                }
            }
        } else {
            lemma_resolve_closed(s, values, v, d, i + 1, fuel, open_set);
            let res = resolve_from(s, values, v, d, i + 1, fuel).unwrap();
            assert forall|k: int| i <= k < s.out[v].len() implies {
                let t3 = s.eto[(#[trigger] s.out[v][k]).0 as int];
                &&& 0 <= t3 < res.len()
                &&& res[t3] is Some
            } by {
                if k == i {
                    assert(values[t] is Some);
                }
            }
        }
    }
}

/// Walk induction: with the root's children recorded and every other
/// recorded vertex closed, every vertex at the end of a walk of length at
/// least two from `r` is recorded.
proof fn lemma_walk_recorded(s: GraphShape, values: OwnerTable, r: int, p: Seq<int>)
    requires
        s.wf(),
        acyclic(s),
        values.len() == s.vcount(),
        0 <= r < s.vcount(),
        is_walk(s, p),
        p.first() == r,
        children_recorded(s, values, r),
        forall|x: int|
            0 <= x < values.len() && values[x] is Some && x != r ==> children_recorded(
                s,
                values,
                x,
            ),
        p.len() >= 2,
    ensures
        values[p.last()] is Some,
    decreases p.len(),
{
    let n = p.len() as int;
    let u = p[n - 2];
    assert(connected(s, p[n - 2], p[n - 1]));
    let e = choose|e: int| #[trigger] edge_connects(s, e, p[n - 2], p[n - 1]);
    assert(edge_connects(s, e, u, p.last()));
    assert(s.out[s.efrom[e]].contains(EdgeID(e as usize)));
    assert(exists|k: int| 0 <= k < s.out[u].len() && s.out[u][k] == EdgeID(e as usize));
    let k = choose|k: int| 0 <= k < s.out[u].len() && s.out[u][k] == EdgeID(e as usize);
    assert(s.out[u][k] == EdgeID(e as usize));
    assert((EdgeID(e as usize)).0 as int == e);
    if n == 2 {
        assert(u == r);
        assert((s.out[u][k]).0 as int == e);
        assert(s.eto[(s.out[r][k]).0 as int] == p.last());
    } else {
        let q = p.drop_last();
        assert forall|k2: int| 0 <= k2 < q.len() - 1 implies connected(s, #[trigger] q[k2], q[k2 + 1]) by {
            assert(q[k2] == p[k2] && q[k2 + 1] == p[k2 + 1]);
            assert(connected(s, p[k2], p[k2 + 1]));
        }
        assert(is_walk(s, q));
        lemma_walk_recorded(s, values, r, q);
        assert(values[u] is Some);
        if u == r {
            assert(q.len() >= 2 && q.first() == r && q.last() == r);
            assert(false);
        }
        assert(children_recorded(s, values, u));
        assert((s.out[u][k]).0 as int == e);
        assert(s.eto[(s.out[u][k]).0 as int] == p.last());
    }
}

/// Single ownership: after the resolver runs from root `r` over an acyclic
/// well-formed shape, every vertex reachable from `r` other than `r` itself
/// has exactly one incoming edge flagged as owning — the recorded one — and
/// `r` has none.
#[verifier::rlimit(60)]
pub proof fn lemma_single_ownership(s: GraphShape, r: int, fuel: nat)
    requires
        s.wf(),
        acyclic(s),
        0 <= r < s.vcount(),
        resolve_from(s, empty_table(s), r, 0, 0, fuel) is Some,
    ensures
        ({
            let vals = resolve_from(s, empty_table(s), r, 0, 0, fuel).unwrap();
            &&& vals.len() == s.vcount()
            &&& vals[r] is None
            &&& (forall|e: int| 0 <= e < s.ecount() && s.eto[e] == r ==> !edge_owned(s, vals, e))
            &&& (forall|w: int|
                0 <= w < s.vcount() && w != r && reaches(s, r, w) ==> {
                    let p = (#[trigger] vals[w]).unwrap();
                    &&& vals[w] is Some
                    &&& 0 <= (p.1.0 as int) < s.ecount()
                    &&& s.eto[p.1.0 as int] == w
                    &&& (forall|e: int|
                        0 <= e < s.ecount() && s.eto[e] == w ==> (edge_owned(s, vals, e) <==> e
                            == p.1.0 as int))
                })
        }),
{
    let values = empty_table(s);
    let vals = resolve_from(s, values, r, 0, 0, fuel).unwrap();
    lemma_resolve_table_len(s, values, r, 0, 0, fuel);
    lemma_reaches_refl(s, r);
    lemma_resolve_sound(s, r, values, r, 0, 0, fuel);
    lemma_resolve_closed(s, values, r, 0, 0, fuel, set![r]);

    // `r` is never recorded: its owner would be an edge from a reachable
    // vertex back to `r`, a cycle.
    if vals[r] is Some {
        let p = vals[r].unwrap();
        let e = p.1.0 as int;
        assert(edge_connects(s, e, s.efrom[e], r));
        lemma_no_edge_back(s, r, s.efrom[e], e);
    }

    // Completeness: every vertex reachable from `r` (other than `r`) is
    // recorded.
    assert forall|w: int|
        0 <= w < s.vcount() && w != r && reaches(s, r, w) implies vals[w] is Some by {
        let p = choose|p: Seq<int>| is_walk(s, p) && p.first() == r && p.last() == w;
        assert(children_recorded(s, vals, r)) by {
            assert forall|k: int| 0 <= k < s.out[r].len() implies {
                let t = s.eto[(#[trigger] s.out[r][k]).0 as int];
                &&& 0 <= t < vals.len()
                &&& vals[t] is Some
            } by {}
        }
        assert forall|x: int|
            0 <= x < vals.len() && vals[x] is Some && x != r implies children_recorded(
            s,
            vals,
            x,
        ) by {
            assert(!set![r].contains(x));
        }
        if p.len() >= 2 {
            lemma_walk_recorded(s, vals, r, p);
        }
    }
}

/// A found root is a valid vertex index.
proof fn lemma_root_in_range(s: GraphShape, v: int, fuel: nat)
    requires
        root_from(s, v, fuel) is Some,
    ensures
        0 <= root_from(s, v, fuel).unwrap() < s.vcount(),
    decreases fuel,
{
    if 0 <= v < s.vcount() && s.inc[v].len() > 0 {
        let eid = s.inc[v][0];
        lemma_root_in_range(s, s.efrom[eid.0 as int], (fuel - 1) as nat);
    }
}

/// Single ownership for the pipeline that `layout` runs: after the resolver
/// succeeds on a well-formed acyclic shape, every vertex reachable from the
/// root other than the root itself has exactly one incoming owning edge, and
/// the root has none.
pub proof fn lemma_pipeline_single_ownership(s: GraphShape)
    requires
        s.wf(),
        acyclic(s),
        resolved_values(s) is Some,
    ensures
        ({
            let r = shape_root(s).unwrap();
            let vals = resolved_values(s).unwrap();
            &&& shape_root(s) is Some
            &&& 0 <= r < s.vcount()
            &&& vals.len() == s.vcount()
            &&& vals[r] is None
            &&& (forall|e: int| 0 <= e < s.ecount() && s.eto[e] == r ==> !edge_owned(s, vals, e))
            &&& (forall|w: int|
                0 <= w < s.vcount() && w != r && reaches(s, r, w) ==> {
                    let p = (#[trigger] vals[w]).unwrap();
                    &&& vals[w] is Some
                    &&& 0 <= (p.1.0 as int) < s.ecount()
                    &&& s.eto[p.1.0 as int] == w
                    &&& (forall|e: int|
                        0 <= e < s.ecount() && s.eto[e] == w ==> (edge_owned(s, vals, e) <==> e
                            == p.1.0 as int))
                })
        }),
{
    let r = shape_root(s).unwrap();
    lemma_root_in_range(s, 0, s.out.len());
    lemma_single_ownership(s, r, s.out.len());
}

} // verus!
