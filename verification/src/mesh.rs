//! The triangulation of a boundary ring, as an arena of directed edges.
use crate::geometry::Point;
use vstd::prelude::*;

verus! {

/// One directed edge of the triangulation. `next` and `prev` are the other two edges
/// of the face to its left, `rev` is the same edge seen from the face to its right,
/// and `apex` is the third vertex of the face to its left.
#[derive(Clone, Copy, Debug)]
pub struct HalfEdge {
    pub from: usize,
    pub to: usize,
    pub next: usize,
    pub prev: usize,
    pub rev: usize,
    pub apex: Option<usize>,
    /// The edge is an edge of the boundary ring.
    pub constraint: bool,
    /// The face to the left of the edge is the unbounded one.
    pub outer: bool,
}

/// Why a set of parts is not a triangulation of its ring.
#[derive(Clone, Copy, Debug, PartialEq, Eq)]
pub enum MeshError {
    /// The point with this index lies outside the grid.
    PointOffGrid(usize),
    /// The edge with this index refers to a vertex or an edge that does not exist, is
    /// an inner edge without an apex, is a constraint without being an edge of the
    /// ring or the other way round, or does not agree with its reverse.
    BrokenEdge(usize),
    /// The hull entry at this position is not an edge.
    BrokenHull(usize),
    /// No constraint edge runs from this vertex to the next one on the ring, or none
    /// to the one before it.
    MissingRingEdge(usize),
}

/// The successor of `i` on a ring of `n` vertices.
pub open spec fn ring_succ(i: int, n: int) -> int {
    if i + 1 == n {
        0
    } else {
        i + 1
    }
}

/// The predecessor of `i` on a ring of `n` vertices.
pub open spec fn ring_pred(i: int, n: int) -> int {
    if i == 0 {
        n - 1
    } else {
        i - 1
    }
}

/// Edge `e` stays within `n` vertices and `m` edges, has an apex unless it is an
/// outer edge, and is a constraint exactly where it joins two neighbours on the ring.
pub open spec fn edge_ok(e: HalfEdge, n: int, m: int) -> bool {
    &&& e.from < n
    &&& e.to < n
    &&& e.next < m
    &&& e.prev < m
    &&& e.rev < m
    &&& (e.apex matches Some(v) ==> v < n)
    &&& (!e.outer ==> e.apex.is_some())
    &&& (e.constraint <==> e.to == ring_succ(e.from as int, n) || e.to == ring_pred(
        e.from as int,
        n,
    ))
}

/// The reverse of edge `e` joins the same two vertices the other way round.
pub open spec fn twin_ok(edges: Seq<HalfEdge>, e: int) -> bool {
    let h = edges[e];
    edges[h.rev as int].from == h.to && edges[h.rev as int].to == h.from
}

/// Edge `e` is in order by itself and agrees with its reverse.
pub open spec fn edge_fits(edges: Seq<HalfEdge>, e: int, n: int) -> bool {
    edge_ok(edges[e], n, edges.len() as int) && twin_ok(edges, e)
}

/// Some constraint edge of `edges` runs from `a` to `b`.
pub open spec fn connects(edges: Seq<HalfEdge>, a: int, b: int) -> bool {
    exists|e: int|
        0 <= e < edges.len() && #[trigger] edges[e].from == a && edges[e].to == b
            && edges[e].constraint
}

/// Vertex `i` of a ring of `n` has a constraint edge to its successor and one to its
/// predecessor.
pub open spec fn ring_edges_at(edges: Seq<HalfEdge>, i: int, n: int) -> bool {
    connects(edges, i, ring_succ(i, n)) && connects(edges, i, ring_pred(i, n))
}

/// Every edge of the ring is a constraint edge of the triangulation, in both
/// directions.
pub open spec fn ring_present(edges: Seq<HalfEdge>, n: int) -> bool {
    forall|i: int| 0 <= i < n ==> #[trigger] ring_edges_at(edges, i, n)
}

pub open spec fn points_ok(points: Seq<Point>) -> bool {
    forall|i: int| 0 <= i < points.len() ==> (#[trigger] points[i]).on_grid()
}

pub open spec fn edges_ok(points: Seq<Point>, edges: Seq<HalfEdge>) -> bool {
    forall|e: int| 0 <= e < edges.len() ==> #[trigger] edge_fits(edges, e, points.len() as int)
}

pub open spec fn hull_ok(edges: Seq<HalfEdge>, hull: Seq<usize>) -> bool {
    forall|k: int| 0 <= k < hull.len() ==> (#[trigger] hull[k]) < edges.len()
}

/// The parts describe a triangulation that the algorithms of this crate can walk:
/// all points lie on the grid, all references stay inside the arenas, and, for a
/// ring of three or more vertices, the constraint edges are the edges of the ring.
pub open spec fn parts_valid(points: Seq<Point>, edges: Seq<HalfEdge>, hull: Seq<usize>) -> bool {
    &&& points_ok(points)
    &&& edges_ok(points, edges)
    &&& hull_ok(edges, hull)
    &&& (points.len() >= 3 ==> ring_present(edges, points.len() as int))
}

/// Edge `e` is the last constraint edge of `edges` that runs from `a` to `b`.
pub open spec fn last_ring_edge(edges: Seq<HalfEdge>, e: int, a: int, b: int) -> bool {
    &&& 0 <= e < edges.len()
    &&& edges[e].from == a && edges[e].to == b && edges[e].constraint
    &&& forall|q: int|
        e < q < edges.len() ==> !(#[trigger] edges[q].from == a && edges[q].to == b
            && edges[q].constraint)
}

/// A triangulation of a boundary ring. Vertex `i` is ring position `i`.
pub struct Mesh {
    pub points: Vec<Point>,
    pub edges: Vec<HalfEdge>,
    /// The edges of the convex hull, in the order of the walk around it.
    pub hull: Vec<usize>,
    /// For each vertex, the edge to its ring successor.
    pub ring_out: Vec<usize>,
    /// For each vertex, the edge to its ring predecessor.
    pub ring_back: Vec<usize>,
}

impl Mesh {
    /// The well-formedness of a mesh: its parts are valid and the two ring tables
    /// name the ring edges.
    pub open spec fn wf(&self) -> bool {
        &&& parts_valid(self.points@, self.edges@, self.hull@)
        &&& (self.points@.len() >= 3 ==> {
            &&& self.ring_out@.len() == self.points@.len()
            &&& self.ring_back@.len() == self.points@.len()
            &&& forall|i: int|
                0 <= i < self.points@.len() ==> {
                    &&& (#[trigger] self.ring_out@[i]) < self.edges@.len()
                    &&& self.edges@[self.ring_out@[i] as int].constraint
                    &&& self.edges@[self.ring_out@[i] as int].from == i
                    &&& self.edges@[self.ring_out@[i] as int].to == ring_succ(
                        i,
                        self.points@.len() as int,
                    )
                }
            &&& forall|i: int|
                0 <= i < self.points@.len() ==> {
                    &&& (#[trigger] self.ring_back@[i]) < self.edges@.len()
                    &&& self.edges@[self.ring_back@[i] as int].constraint
                    &&& self.edges@[self.ring_back@[i] as int].from == i
                    &&& self.edges@[self.ring_back@[i] as int].to == ring_pred(
                        i,
                        self.points@.len() as int,
                    )
                }
        })
    }

    /// The number of vertices.
    pub open spec fn n(&self) -> int {
        self.points@.len() as int
    }

    /// Vertices `a` and `b` are joined by a constraint edge.
    pub open spec fn is_constraint(&self, a: int, b: int) -> bool {
        exists|e: int|
            0 <= e < self.edges@.len() && #[trigger] self.edges@[e].from == a && self.edges@[e].to
                == b && self.edges@[e].constraint
    }

    /// Checks the parts and assembles the mesh. The first fault found is reported:
    /// points are checked before edges, edges before the hull, the hull before the
    /// ring, each in index order.
    pub fn new(points: Vec<Point>, edges: Vec<HalfEdge>, hull: Vec<usize>) -> (r: Result<
        Mesh,
        MeshError,
    >)
        ensures
            match r {
                Ok(mesh) => {
                    &&& parts_valid(points@, edges@, hull@)
                    &&& mesh.wf()
                    &&& mesh.points@ == points@
                    &&& mesh.edges@ == edges@
                    &&& mesh.hull@ == hull@
                    &&& points@.len() < 3 ==> mesh.ring_out@.len() == 0 && mesh.ring_back@.len()
                        == 0
                    &&& forall|i: int|
                        0 <= i < points@.len() && points@.len() >= 3 ==> last_ring_edge(
                            edges@,
                            (#[trigger] mesh.ring_out@[i]) as int,
                            i,
                            ring_succ(i, points@.len() as int),
                        )
                    &&& forall|i: int|
                        0 <= i < points@.len() && points@.len() >= 3 ==> last_ring_edge(
                            edges@,
                            (#[trigger] mesh.ring_back@[i]) as int,
                            i,
                            ring_pred(i, points@.len() as int),
                        )
                },
                Err(MeshError::PointOffGrid(i)) => {
                    &&& i < points@.len()
                    &&& !points@[i as int].on_grid()
                    &&& forall|j: int| 0 <= j < i ==> (#[trigger] points@[j]).on_grid()
                },
                Err(MeshError::BrokenEdge(e)) => {
                    &&& points_ok(points@)
                    &&& e < edges@.len()
                    &&& !edge_fits(edges@, e as int, points@.len() as int)
                    &&& forall|j: int|
                        0 <= j < e ==> #[trigger] edge_fits(edges@, j, points@.len() as int)
                },
                Err(MeshError::BrokenHull(k)) => {
                    &&& points_ok(points@)
                    &&& edges_ok(points@, edges@)
                    &&& k < hull@.len()
                    &&& hull@[k as int] >= edges@.len()
                    &&& forall|j: int| 0 <= j < k ==> (#[trigger] hull@[j]) < edges@.len()
                },
                Err(MeshError::MissingRingEdge(i)) => {
                    &&& points_ok(points@)
                    &&& edges_ok(points@, edges@)
                    &&& hull_ok(edges@, hull@)
                    &&& 3 <= points@.len()
                    &&& i < points@.len()
                    &&& !ring_edges_at(edges@, i as int, points@.len() as int)
                    &&& forall|j: int|
                        0 <= j < i ==> #[trigger] ring_edges_at(edges@, j, points@.len() as int)
                },
            },
    {
        let n: usize = points.len();
        let m: usize = edges.len();
        let mut i: usize = 0;
        while i < n
            invariant
                n == points@.len(),
                i <= n,
                forall|j: int| 0 <= j < i ==> (#[trigger] points@[j]).on_grid(),
            decreases n - i,
        {
            if !points[i].is_on_grid() {
                return Err(MeshError::PointOffGrid(i));
            }
            i += 1;
        }
        let mut e: usize = 0;
        while e < m
            invariant
                n == points@.len(),
                m == edges@.len(),
                e <= m,
                points_ok(points@),
                forall|j: int| 0 <= j < e ==> #[trigger] edge_fits(edges@, j, n as int),
            decreases m - e,
        {
            let h = edges[e];
            let apex_ok = match h.apex {
                Some(v) => v < n,
                None => h.outer,
            };
            if !(h.from < n && h.to < n && h.next < m && h.prev < m && h.rev < m && apex_ok) {
                return Err(MeshError::BrokenEdge(e));
            }
            let succ: usize = if h.from + 1 == n {
                0
            } else {
                h.from + 1
            };
            let pred: usize = if h.from == 0 {
                n - 1
            } else {
                h.from - 1
            };
            if h.constraint != (h.to == succ || h.to == pred) {
                return Err(MeshError::BrokenEdge(e));
            }
            let twin = edges[h.rev];
            if twin.from != h.to || twin.to != h.from {
                return Err(MeshError::BrokenEdge(e));
            }
            e += 1;
        }
        let mut k: usize = 0;
        while k < hull.len()
            invariant
                m == edges@.len(),
                k <= hull@.len(),
                points_ok(points@),
                edges_ok(points@, edges@),
                forall|j: int| 0 <= j < k ==> (#[trigger] hull@[j]) < m,
            decreases hull@.len() - k,
        {
            if hull[k] >= m {
                return Err(MeshError::BrokenHull(k));
            }
            k += 1;
        }
        let mut ring_out: Vec<usize> = Vec::new();
        let mut ring_back: Vec<usize> = Vec::new();
        if n >= 3 {
            let mut i: usize = 0;
            while i < n
                invariant
                    i <= n,
                    ring_out@.len() == i,
                    ring_back@.len() == i,
                    forall|j: int| 0 <= j < i ==> ring_out@[j] == m && ring_back@[j] == m,
                decreases n - i,
            {
                ring_out.push(m);
                ring_back.push(m);
                i += 1;
            }
            let mut e: usize = 0;
            while e < m
                invariant
                    n == points@.len(),
                    m == edges@.len(),
                    n >= 3,
                    e <= m,
                    edges_ok(points@, edges@),
                    ring_out@.len() == n,
                    ring_back@.len() == n,
                    forall|j: int|
                        0 <= j < n ==> {
                            &&& (#[trigger] ring_out@[j]) <= m
                            &&& (ring_out@[j] < m ==> edges@[ring_out@[j] as int].from == j
                                && edges@[ring_out@[j] as int].to == ring_succ(j, n as int)
                                && edges@[ring_out@[j] as int].constraint)
                            &&& forall|q: int|
                                0 <= q < e && (ring_out@[j] == m || ring_out@[j] < q) ==> !(
                                #[trigger] edges@[q].from == j && edges@[q].to == ring_succ(
                                    j,
                                    n as int,
                                ) && edges@[q].constraint)
                        },
                    forall|j: int|
                        0 <= j < n ==> {
                            &&& (#[trigger] ring_back@[j]) <= m
                            &&& (ring_back@[j] < m ==> edges@[ring_back@[j] as int].from == j
                                && edges@[ring_back@[j] as int].to == ring_pred(j, n as int)
                                && edges@[ring_back@[j] as int].constraint)
                            &&& forall|q: int|
                                0 <= q < e && (ring_back@[j] == m || ring_back@[j] < q) ==> !(
                                #[trigger] edges@[q].from == j && edges@[q].to == ring_pred(
                                    j,
                                    n as int,
                                ) && edges@[q].constraint)
                        },
                decreases m - e,
            {
                let h = edges[e];
                assert(edge_fits(edges@, e as int, n as int));
                let succ: usize = if h.from + 1 == n {
                    0
                } else {
                    h.from + 1
                };
                let pred: usize = if h.from == 0 {
                    n - 1
                } else {
                    h.from - 1
                };
                if h.constraint && h.to == succ {
                    ring_out.set(h.from, e);
                }
                if h.constraint && h.to == pred {
                    ring_back.set(h.from, e);
                }
                e += 1;
            }
            let mut i: usize = 0;
            while i < n
                invariant
                    n == points@.len(),
                    m == edges@.len(),
                    i <= n,
                    n >= 3,
                    points_ok(points@),
                    edges_ok(points@, edges@),
                    hull_ok(edges@, hull@),
                    ring_out@.len() == n,
                    ring_back@.len() == n,
                    forall|j: int|
                        0 <= j < n ==> {
                            &&& (#[trigger] ring_out@[j]) <= m
                            &&& (ring_out@[j] < m ==> edges@[ring_out@[j] as int].from == j
                                && edges@[ring_out@[j] as int].to == ring_succ(j, n as int)
                                && edges@[ring_out@[j] as int].constraint)
                            &&& forall|q: int|
                                0 <= q < m && (ring_out@[j] == m || ring_out@[j] < q) ==> !(
                                #[trigger] edges@[q].from == j && edges@[q].to == ring_succ(
                                    j,
                                    n as int,
                                ) && edges@[q].constraint)
                        },
                    forall|j: int|
                        0 <= j < n ==> {
                            &&& (#[trigger] ring_back@[j]) <= m
                            &&& (ring_back@[j] < m ==> edges@[ring_back@[j] as int].from == j
                                && edges@[ring_back@[j] as int].to == ring_pred(j, n as int)
                                && edges@[ring_back@[j] as int].constraint)
                            &&& forall|q: int|
                                0 <= q < m && (ring_back@[j] == m || ring_back@[j] < q) ==> !(
                                #[trigger] edges@[q].from == j && edges@[q].to == ring_pred(
                                    j,
                                    n as int,
                                ) && edges@[q].constraint)
                        },
                    forall|j: int| 0 <= j < i ==> #[trigger] ring_edges_at(edges@, j, n as int),
                    forall|j: int| 0 <= j < i ==> (#[trigger] ring_out@[j]) < m,
                    forall|j: int| 0 <= j < i ==> (#[trigger] ring_back@[j]) < m,
                decreases n - i,
            {
                if ring_out[i] == m || ring_back[i] == m {
                    return Err(MeshError::MissingRingEdge(i));
                }
                let ghost out = edges@[ring_out@[i as int] as int];
                let ghost back = edges@[ring_back@[i as int] as int];
                assert(out.from == i && out.constraint);
                assert(back.from == i && back.constraint);
                assert(ring_edges_at(edges@, i as int, n as int));
                i += 1;
            }
            assert(ring_present(edges@, n as int));
        }
        Ok(Mesh { points, edges, hull, ring_out, ring_back })
    }

    pub fn num_vertices(&self) -> (n: usize)
        ensures
            n == self.n(),
    {
        self.points.len()
    }

    pub fn num_directed_edges(&self) -> (m: usize)
        ensures
            m == self.edges@.len(),
    {
        self.edges.len()
    }

    /// The position of vertex `v`.
    pub fn position(&self, v: usize) -> (p: Point)
        requires
            self.wf(),
            v < self.n(),
        ensures
            p == self.points@[v as int],
            p.on_grid(),
    {
        self.points[v]
    }

    /// The edge with index `e`.
    pub fn edge(&self, e: usize) -> (h: HalfEdge)
        requires
            self.wf(),
            e < self.edges@.len(),
        ensures
            h == self.edges@[e as int],
            edge_ok(h, self.n(), self.edges@.len() as int),
            twin_ok(self.edges@, e as int),
    {
        assert(edge_fits(self.edges@, e as int, self.n()));
        self.edges[e]
    }

    /// What well-formedness says of one edge.
    pub proof fn lemma_edge_fits(&self, e: int)
        requires
            self.wf(),
            0 <= e < self.edges@.len(),
        ensures
            edge_ok(self.edges@[e], self.n(), self.edges@.len() as int),
            twin_ok(self.edges@, e),
    {
        assert(edge_fits(self.edges@, e, self.n()));
    }

    /// In a ring of three or more vertices the constraint edges are the edges of the
    /// ring: two vertices are joined by one where they are neighbours on the ring.
    pub proof fn lemma_constraints_are_ring_edges(&self, a: int, b: int)
        requires
            self.wf(),
            self.n() >= 3,
            0 <= a < self.n(),
            0 <= b < self.n(),
        ensures
            self.is_constraint(a, b) <==> (b == ring_succ(a, self.n()) || b == ring_pred(
                a,
                self.n(),
            )),
    {
        if b == ring_succ(a, self.n()) {
            assert(self.edges@[self.ring_out@[a] as int].from == a);
        }
        if b == ring_pred(a, self.n()) {
            assert(self.edges@[self.ring_back@[a] as int].from == a);
        }
        if self.is_constraint(a, b) {
            let e = choose|e: int|
                0 <= e < self.edges@.len() && #[trigger] self.edges@[e].from == a
                    && self.edges@[e].to == b && self.edges@[e].constraint;
            assert(edge_fits(self.edges@, e, self.n()));
        }
    }

    /// Whether a constraint edge runs from `a` to `b`.
    pub fn exists_constraint(&self, a: usize, b: usize) -> (r: bool)
        requires
            self.wf(),
        ensures
            r == self.is_constraint(a as int, b as int),
    {
        let n: usize = self.points.len();
        if n >= 3 && a < n && b < n {
            proof {
                self.lemma_constraints_are_ring_edges(a as int, b as int);
            }
            let succ: usize = if a + 1 == n {
                0
            } else {
                a + 1
            };
            let pred: usize = if a == 0 {
                n - 1
            } else {
                a - 1
            };
            return b == succ || b == pred;
        }
        let m: usize = self.edges.len();
        let mut e: usize = 0;
        while e < m
            invariant
                m == self.edges@.len(),
                e <= m,
                forall|k: int|
                    0 <= k < e ==> !(#[trigger] self.edges@[k].from == a && self.edges@[k].to == b
                        && self.edges@[k].constraint),
            decreases m - e,
        {
            let h = self.edges[e];
            if h.from == a && h.to == b && h.constraint {
                return true;
            }
            e += 1;
        }
        false
    }
}

/// The edges of a ring of `n` vertices as pairs of vertex indices: the edge that
/// closes the ring first, then the edge into each further vertex.
pub open spec fn ring_edges(n: nat) -> Seq<(usize, usize)> {
    Seq::new(
        n,
        |i: int|
            if i == 0 {
                ((n - 1) as usize, 0usize)
            } else {
                ((i - 1) as usize, i as usize)
            },
    )
}

/// Lists the edges of a ring of `n` vertices: the constraints of its triangulation.
pub fn constraint_edges(n: usize) -> (r: Vec<(usize, usize)>)
    ensures
        r@ == ring_edges(n as nat),
{
    let mut out: Vec<(usize, usize)> = Vec::new();
    let mut i: usize = 0;
    while i < n
        invariant
            i <= n,
            out@.len() == i,
            forall|j: int| 0 <= j < i ==> out@[j] == ring_edges(n as nat)[j],
        decreases n - i,
    {
        if i == 0 {
            out.push((n - 1, 0));
        } else {
            out.push((i - 1, i));
        }
        i += 1;
    }
    assert(out@ =~= ring_edges(n as nat));
    out
}

} // verus!
