//! The characteristic shape of a ring: its convex hull, eaten inwards along the
//! longest edges that are not edges of the ring.
use crate::geometry::{chord_length_2, length_2, Point};
use crate::index_set::{ascending, lemma_ascending_unique, members, IndexSet};
use crate::mesh::{ring_succ, Mesh};
use crate::segments::LineString;
use crate::ring_order::{hull_from, hull_is_ring, hull_to, lemma_hull_edges_are_ring_edges};
use crate::simplify_rdp::{
    all_below, collect_positions, positions, ring_indices, span_len, whole_ring,
};
use crate::visibility::below;
use vstd::prelude::*;

verus! {

/// A directed edge with its squared length.
#[derive(Clone, Copy, Debug, PartialEq, Eq, Structural)]
pub struct CharScore {
    pub score: u64,
    pub edge: usize,
}

/// The order in which edges leave the queue: by length, edges of one length by
/// their index.
pub open spec fn ranks_le(a: CharScore, b: CharScore) -> bool {
    a.score < b.score || (a.score == b.score && a.edge <= b.edge)
}

/// No entry ranks above a later one.
pub open spec fn ranked(s: Seq<CharScore>) -> bool {
    forall|i: int, j: int| 0 <= i < j < s.len() ==> ranks_le(s[i], s[j])
}

/// The queue with `e` put in its place: behind every entry that does not rank above
/// it.
pub open spec fn put(s: Seq<CharScore>, e: CharScore) -> Seq<CharScore>
    decreases s.len(),
{
    if s.len() == 0 {
        seq![e]
    } else if ranks_le(s.last(), e) {
        s.push(e)
    } else {
        put(s.drop_last(), e).push(s.last())
    }
}

proof fn lemma_put_at(s: Seq<CharScore>, e: CharScore, k: int)
    requires
        0 <= k <= s.len(),
        forall|i: int| k <= i < s.len() ==> !ranks_le(#[trigger] s[i], e),
        k > 0 ==> ranks_le(s[k - 1], e),
    ensures
        put(s, e) == s.insert(k, e),
    decreases s.len() - k,
{
    if s.len() == 0 {
        assert(s.insert(k, e) =~= seq![e]);
    } else if k == s.len() {
        assert(s.insert(k, e) =~= s.push(e));
    } else {
        assert(!ranks_le(s[s.len() - 1], e));
        let head = s.drop_last();
        assert forall|i: int| k <= i < head.len() implies !ranks_le(#[trigger] head[i], e) by {
            assert(head[i] == s[i]);
        }
        lemma_put_at(head, e, k);
        assert(head.insert(k, e).push(s.last()) =~= s.insert(k, e));
    }
}

/// A queue of edges that hands out the longest first.
pub struct EdgeQueue {
    pub entries: Vec<CharScore>,
}

impl View for EdgeQueue {
    type V = Seq<CharScore>;

    open spec fn view(&self) -> Seq<CharScore> {
        self.entries@
    }
}

impl EdgeQueue {
    /// The entries stand in the order of their ranks, the highest last.
    pub open spec fn wf(&self) -> bool {
        ranked(self.entries@)
    }

    pub fn new() -> (q: EdgeQueue)
        ensures
            q.wf(),
            q@ == Seq::<CharScore>::empty(),
    {
        EdgeQueue { entries: Vec::new() }
    }

    /// Puts `e` into the queue.
    pub fn push(&mut self, e: CharScore)
        requires
            old(self).wf(),
        ensures
            final(self).wf(),
            final(self)@ == put(old(self)@, e),
            final(self)@.len() == old(self)@.len() + 1,
    {
        let mut k: usize = self.entries.len();
        while k > 0 && !(self.entries[k - 1].score < e.score || (self.entries[k - 1].score
            == e.score && self.entries[k - 1].edge <= e.edge))
            invariant
                self.entries == old(self).entries,
                k <= self.entries@.len(),
                forall|i: int| k <= i < self.entries@.len() ==> !ranks_le(#[trigger] self.entries@[i], e),
            decreases k,
        {
            k -= 1;
        }
        proof {
            lemma_put_at(self.entries@, e, k as int);
        }
        let ghost before = self.entries@;
        self.entries.insert(k, e);
        assert forall|i: int, j: int| 0 <= i < j < self.entries@.len() implies ranks_le(
            self.entries@[i],
            self.entries@[j],
        ) by {
            if j < k {
                assert(ranks_le(before[i], before[j]));
            } else if j == k {
                assert(ranks_le(before[i], before[k - 1]));
            } else if i < k {
                assert(ranks_le(before[i], before[j - 1]));
            } else if i == k {
                assert(!ranks_le(before[j - 1], e));
            } else {
                assert(ranks_le(before[i - 1], before[j - 1]));
            }
        }
    }

    /// Takes the entry of the highest rank out of the queue.
    pub fn pop(&mut self) -> (r: Option<CharScore>)
        requires
            old(self).wf(),
        ensures
            final(self).wf(),
            r.is_none() <==> old(self)@.len() == 0,
            r.is_none() ==> final(self)@ == old(self)@,
            r matches Some(top) ==> {
                &&& top == old(self)@.last()
                &&& final(self)@ == old(self)@.drop_last()
                &&& forall|i: int| 0 <= i < old(self)@.len() ==> ranks_le(#[trigger] old(self)@[i], top)
            },
    {
        let r = self.entries.pop();
        proof {
            if r.is_some() {
                assert(self.entries@ =~= old(self)@.drop_last());
                assert forall|i: int| 0 <= i < old(self)@.len() implies ranks_le(
                    #[trigger] old(self)@[i],
                    old(self)@.last(),
                ) by {
                    if i < old(self)@.len() - 1 {
                        assert(ranks_le(old(self)@[i], old(self)@[old(self)@.len() - 1]));
                    }
                }
            }
        }
        r
    }
}

/// The queue entry of edge `e`: the edge with its squared length.
pub open spec fn scored(mesh: &Mesh, e: int) -> CharScore {
    let h = mesh.edges@[e];
    CharScore {
        score: length_2(mesh.points@[h.from as int], mesh.points@[h.to as int]) as u64,
        edge: e as usize,
    }
}

/// The queue at the start, after the first `k` hull edges: each hull edge enters it
/// as seen from inside the hull.
pub open spec fn hull_queue(mesh: &Mesh, k: nat) -> Seq<CharScore>
    decreases k,
{
    if k == 0 {
        Seq::empty()
    } else {
        put(
            hull_queue(mesh, (k - 1) as nat),
            scored(mesh, mesh.edges@[mesh.hull@[k - 1] as int].rev as int),
        )
    }
}

/// The vertices at which the first `k` hull edges start.
pub open spec fn hull_vertices(mesh: &Mesh, k: nat) -> Set<usize>
    decreases k,
{
    if k == 0 {
        Set::empty()
    } else {
        hull_vertices(mesh, (k - 1) as nat).insert(mesh.edges@[mesh.hull@[k - 1] as int].from)
    }
}

/// The queue after the face behind `edge` has been taken away: the two other edges
/// of that face enter it, each as seen from the face beyond it.
pub open spec fn opened(mesh: &Mesh, queue: Seq<CharScore>, edge: int) -> Seq<CharScore> {
    let h = mesh.edges@[edge];
    put(
        put(queue, scored(mesh, mesh.edges@[h.prev as int].rev as int)),
        scored(mesh, mesh.edges@[h.next as int].rev as int),
    )
}

/// The boundary vertices at the end of the contraction that starts with `queue`,
/// the boundary vertices `boundary` and `count` vertices counted.
///
/// The longest edge leaves the queue. The contraction ends when that edge is shorter
/// than the threshold, or when `max_len` vertices have been counted. A constraint
/// edge, and an edge with no face behind it, is dropped. Behind any other edge the
/// face is taken away: its apex becomes a boundary vertex and is counted.
pub open spec fn contracted(
    mesh: &Mesh,
    queue: Seq<CharScore>,
    boundary: Set<usize>,
    count: nat,
    eps_2: nat,
    max_len: nat,
) -> Set<usize>
    decreases max_len - count, queue.len(),
{
    if queue.len() == 0 {
        boundary
    } else {
        let top = queue.last();
        let h = mesh.edges@[top.edge as int];
        if top.score < eps_2 || count >= max_len {
            boundary
        } else if h.constraint || h.apex.is_none() {
            contracted(mesh, queue.drop_last(), boundary, count, eps_2, max_len)
        } else {
            contracted(
                mesh,
                opened(mesh, queue.drop_last(), top.edge as int),
                boundary.insert(h.apex.unwrap()),
                count + 1,
                eps_2,
                max_len,
            )
        }
    }
}

/// The boundary vertices of the characteristic shape: the contraction that starts
/// from the convex hull. A ring of fewer than three vertices keeps all of them.
pub open spec fn shape_vertices(mesh: &Mesh, eps: nat, max_len: nat) -> Set<usize> {
    if mesh.n() < 3 {
        members(whole_ring(mesh.n() as nat))
    } else {
        contracted(
            mesh,
            hull_queue(mesh, mesh.hull@.len()),
            hull_vertices(mesh, mesh.hull@.len()),
            mesh.hull@.len(),
            eps * eps,
            max_len,
        )
    }
}

/// All entries of the queue name edges of a mesh with `m` edges.
pub open spec fn entries_ok(queue: Seq<CharScore>, m: int) -> bool {
    forall|i: int| 0 <= i < queue.len() ==> (#[trigger] queue[i]).edge < m
}

proof fn lemma_put_entries_ok(queue: Seq<CharScore>, e: CharScore, m: int)
    requires
        entries_ok(queue, m),
        e.edge < m,
    ensures
        entries_ok(put(queue, e), m),
        put(queue, e).len() == queue.len() + 1,
    decreases queue.len(),
{
    if queue.len() > 0 && !ranks_le(queue.last(), e) {
        let head = queue.drop_last();
        assert forall|i: int| 0 <= i < head.len() implies (#[trigger] head[i]).edge < m by {
            assert(head[i] == queue[i]);
        }
        lemma_put_entries_ok(head, e, m);
        assert(queue[queue.len() - 1].edge < m);
    }
}

/// The queue entry of edge `e`.
fn score_edge(mesh: &Mesh, e: usize) -> (r: CharScore)
    requires
        mesh.wf(),
        e < mesh.edges@.len(),
    ensures
        r == scored(mesh, e as int),
        r.edge == e,
{
    let h = mesh.edge(e);
    CharScore { score: chord_length_2(mesh.position(h.from), mesh.position(h.to)), edge: e }
}

/// Puts the two other edges of the face behind `edge` into the queue, each as seen
/// from the face beyond it.
pub fn recompute_boundary(mesh: &Mesh, edge: usize, pq: &mut EdgeQueue)
    requires
        mesh.wf(),
        edge < mesh.edges@.len(),
        old(pq).wf(),
        entries_ok(old(pq)@, mesh.edges@.len() as int),
    ensures
        final(pq).wf(),
        entries_ok(final(pq)@, mesh.edges@.len() as int),
        final(pq)@ == opened(mesh, old(pq)@, edge as int),
        final(pq)@.len() == old(pq)@.len() + 2,
{
    let h = mesh.edge(edge);
    let behind_prev = score_edge(mesh, mesh.edge(h.prev).rev);
    let behind_next = score_edge(mesh, mesh.edge(h.next).rev);
    proof {
        lemma_put_entries_ok(pq@, behind_prev, mesh.edges@.len() as int);
        lemma_put_entries_ok(put(pq@, behind_prev), behind_next, mesh.edges@.len() as int);
    }
    pq.push(behind_prev);
    pq.push(behind_next);
}

/// The vertices of the characteristic shape of the ring, in ascending order.
///
/// The shape has at most `max_len` vertices, unless the convex hull alone has more.
pub fn characteristic_shape_indices(mesh: &Mesh, eps: u32, max_len: usize) -> (r: Vec<usize>)
    requires
        mesh.wf(),
    ensures
        ascending(r@),
        all_below(r@, mesh.n()),
        members(r@) == shape_vertices(mesh, eps as nat, max_len as nat),
        mesh.n() >= 3 ==> r@.len() <= max_len || r@.len() <= mesh.hull@.len(),
        mesh.n() < 3 || hull_is_ring(mesh) ==> r@ == whole_ring(mesh.n() as nat),
{
    let n: usize = mesh.num_vertices();
    if n < 3 {
        return ring_indices(n);
    }
    let m: usize = mesh.num_directed_edges();
    assert(eps * eps <= 0xffff_ffff_0000_0000) by (nonlinear_arith)
        requires
            0 <= eps <= 0xffff_ffff,
    ;
    let eps_2: u64 = (eps as u64) * (eps as u64);
    let mut boundary = IndexSet::new();
    let mut pq = EdgeQueue::new();
    let hull_len: usize = mesh.hull.len();
    let mut k: usize = 0;
    while k < hull_len
        invariant
            mesh.wf(),
            m == mesh.edges@.len(),
            hull_len == mesh.hull@.len(),
            k <= hull_len,
            boundary.wf(),
            pq.wf(),
            entries_ok(pq@, m as int),
            below(boundary@, mesh.n()),
            boundary.items@.len() <= k,
            pq@ == hull_queue(mesh, k as nat),
            boundary@ == hull_vertices(mesh, k as nat),
        decreases hull_len - k,
    {
        let h = mesh.edge(mesh.hull[k]);
        let inner = score_edge(mesh, h.rev);
        proof {
            lemma_put_entries_ok(pq@, inner, m as int);
        }
        boundary.insert(h.from);
        pq.push(inner);
        k += 1;
    }
    let mut count: usize = hull_len;
    let ghost goal = shape_vertices(mesh, eps as nat, max_len as nat);
    loop
        invariant_except_break
            contracted(mesh, pq@, boundary@, count as nat, eps_2 as nat, max_len as nat) == goal,
        invariant
            mesh.wf(),
            mesh.n() >= 3,
            m == mesh.edges@.len(),
            hull_len == mesh.hull@.len(),
            boundary.wf(),
            pq.wf(),
            entries_ok(pq@, m as int),
            below(boundary@, mesh.n()),
            boundary.items@.len() <= count,
            count <= max_len || count <= hull_len,
        ensures
            boundary@ == goal,
        decreases max_len - count, pq@.len(),
    {
        let largest = match pq.pop() {
            Some(top) => top,
            None => {
                break ;
            },
        };
        if largest.score < eps_2 || count >= max_len {
            break ;
        }
        let h = mesh.edge(largest.edge);
        if h.constraint {
            continue ;
        }
        let apex = match h.apex {
            Some(v) => v,
            None => {
                continue ;
            },
        };
        boundary.insert(apex);
        recompute_boundary(mesh, largest.edge, &mut pq);
        count += 1;
    }
    let kept = boundary.into_sorted_vec();
    assert forall|i: int| 0 <= i < kept@.len() implies (#[trigger] kept@[i]) < mesh.n() by {
        assert(kept@.contains(kept@[i]));
        assert(members(kept@).contains(kept@[i]));
    }
    proof {
        if hull_is_ring(mesh) {
            lemma_convex_shape_is_whole(mesh, eps as nat, max_len as nat);
            lemma_ascending_unique(kept@, whole_ring(mesh.n() as nat));
        }
    }
    kept
}

/// The characteristic shape of the ring, as the positions of its vertices in the
/// order of the ring.
pub fn characteristic_shape(mesh: &Mesh, eps: u32, max_len: usize) -> (r: LineString<Point>)
    requires
        mesh.wf(),
    ensures
        is_shape(mesh, eps as nat, max_len as nat, r@),
        mesh.n() >= 3 ==> r@.len() <= max_len || r@.len() <= mesh.hull@.len(),
{
    let kept = characteristic_shape_indices(mesh, eps, max_len);
    let ring = LineString { items: collect_positions(mesh, &kept) };
    assert(shape_of(mesh, eps as nat, max_len as nat, kept@, ring@));
    ring
}

/// The vertices `kept` are those of the characteristic shape, in ascending order,
/// and `ring` holds their positions.
pub open spec fn shape_of(
    mesh: &Mesh,
    eps: nat,
    max_len: nat,
    kept: Seq<usize>,
    ring: Seq<Point>,
) -> bool {
    &&& ascending(kept)
    &&& all_below(kept, mesh.n())
    &&& members(kept) == shape_vertices(mesh, eps, max_len)
    &&& positions(mesh, kept) == ring
}

/// `ring` holds the positions of the vertices of the characteristic shape, in the
/// order of the ring.
pub open spec fn is_shape(mesh: &Mesh, eps: nat, max_len: nat, ring: Seq<Point>) -> bool {
    exists|kept: Seq<usize>| #[trigger] shape_of(mesh, eps, max_len, kept, ring)
}

/// Reduction of a ring to its characteristic shape.
pub trait SimplifyCharshape: Sized {
    /// The value can be reduced.
    spec fn contractible(&self) -> bool;

    /// `ring` is the characteristic shape with at most `max_len` vertices.
    spec fn charshape_is(&self, eps: nat, max_len: nat, ring: Seq<Point>) -> bool;

    /// The characteristic shape of the ring. `len` counts the vertex that closes the
    /// ring, so the shape has at most `len - 1` vertices.
    fn simplify_charshape(&self, eps: u32, len: usize) -> (r: LineString<Point>)
        requires
            self.contractible(),
            len >= 1,
        ensures
            self.charshape_is(eps as nat, (len - 1) as nat, r@),
    ;
}

impl SimplifyCharshape for Mesh {
    open spec fn contractible(&self) -> bool {
        self.wf()
    }

    open spec fn charshape_is(&self, eps: nat, max_len: nat, ring: Seq<Point>) -> bool {
        is_shape(self, eps, max_len, ring)
    }

    fn simplify_charshape(&self, eps: u32, len: usize) -> (r: LineString<Point>) {
        characteristic_shape(self, eps, len - 1)
    }
}

/// Every entry of the queue is a constraint edge of the mesh.
pub open spec fn all_constraints(mesh: &Mesh, queue: Seq<CharScore>) -> bool {
    forall|i: int|
        0 <= i < queue.len() ==> (#[trigger] queue[i]).edge < mesh.edges@.len()
            && mesh.edges@[queue[i].edge as int].constraint
}

proof fn lemma_put_constraint(mesh: &Mesh, queue: Seq<CharScore>, e: CharScore)
    requires
        all_constraints(mesh, queue),
        e.edge < mesh.edges@.len(),
        mesh.edges@[e.edge as int].constraint,
    ensures
        all_constraints(mesh, put(queue, e)),
    decreases queue.len(),
{
    if queue.len() > 0 && !ranks_le(queue.last(), e) {
        let head = queue.drop_last();
        assert forall|i: int| 0 <= i < head.len() implies (#[trigger] head[i]).edge
            < mesh.edges@.len() && mesh.edges@[head[i].edge as int].constraint by {
            assert(head[i] == queue[i]);
        }
        lemma_put_constraint(mesh, head, e);
        assert(queue[queue.len() - 1].edge < mesh.edges@.len());
    }
}

/// A queue of constraint edges leaves the boundary as it is: no constraint edge is
/// ever replaced.
pub proof fn lemma_constraints_stay(
    mesh: &Mesh,
    queue: Seq<CharScore>,
    boundary: Set<usize>,
    count: nat,
    eps_2: nat,
    max_len: nat,
)
    requires
        all_constraints(mesh, queue),
    ensures
        contracted(mesh, queue, boundary, count, eps_2, max_len) == boundary,
    decreases queue.len(),
{
    if queue.len() > 0 {
        let head = queue.drop_last();
        assert forall|i: int| 0 <= i < head.len() implies (#[trigger] head[i]).edge
            < mesh.edges@.len() && mesh.edges@[head[i].edge as int].constraint by {
            assert(head[i] == queue[i]);
        }
        assert(mesh.edges@[queue[queue.len() - 1].edge as int].constraint);
        lemma_constraints_stay(mesh, head, boundary, count, eps_2, max_len);
    }
}

proof fn lemma_hull_of_ring(mesh: &Mesh, k: nat)
    requires
        mesh.wf(),
        mesh.n() >= 3,
        hull_is_ring(mesh),
        k <= mesh.hull@.len(),
    ensures
        all_constraints(mesh, hull_queue(mesh, k)),
        forall|v: usize|
            hull_vertices(mesh, k).contains(v) <==> v < mesh.n() && span_len(
                hull_from(mesh, 0),
                v as int,
                mesh.n(),
            ) < k,
        k < mesh.hull@.len() ==> span_len(hull_from(mesh, 0), hull_from(mesh, k as int), mesh.n())
            == k,
    decreases k,
{
    let n = mesh.n();
    mesh.lemma_edge_fits(mesh.hull@[0] as int);
    if k > 0 {
        lemma_hull_of_ring(mesh, (k - 1) as nat);
        lemma_hull_edges_are_ring_edges(mesh, k);
        lemma_hull_edges_are_ring_edges(mesh, (k - 1) as nat);
        let h = mesh.edges@[mesh.hull@[k - 1] as int];
        mesh.lemma_edge_fits(mesh.hull@[k - 1] as int);
        mesh.lemma_edge_fits(h.rev as int);
        mesh.lemma_constraints_are_ring_edges(hull_from(mesh, k - 1), hull_to(mesh, k - 1));
        assert(span_len(hull_from(mesh, k - 1), hull_to(mesh, k - 1), n) == 1);
        assert(hull_to(mesh, k - 1) == ring_succ(hull_from(mesh, k - 1), n));
        assert(mesh.edges@[h.rev as int].constraint);
        lemma_put_constraint(mesh, hull_queue(mesh, (k - 1) as nat), scored(mesh, h.rev as int));
        assert(mesh.points.len() == n);
        if k < mesh.hull@.len() {
            assert(hull_to(mesh, k - 1) == hull_from(mesh, k - 1 + 1));
        }
        let start = hull_from(mesh, 0);
        let last = hull_from(mesh, k - 1);
        assert(span_len(start, last, n) == k - 1);
        assert forall|v: usize|
            hull_vertices(mesh, k).contains(v) <==> v < n && span_len(start, v as int, n)
                < k by {
            assert(hull_vertices(mesh, k).contains(v) <==> hull_vertices(
                mesh,
                (k - 1) as nat,
            ).contains(v) || v == last);
            if v < n && span_len(start, v as int, n) == k - 1 {
                assert(v == last);
            }
        }
    } else {
        assert forall|v: usize|
            hull_vertices(mesh, k).contains(v) <==> v < n && span_len(
                hull_from(mesh, 0),
                v as int,
                n,
            ) < k by {}
    }
}

/// A ring that is its own convex hull is its own characteristic shape, whatever the
/// threshold and the limit are.
pub proof fn lemma_convex_shape_is_whole(mesh: &Mesh, eps: nat, max_len: nat)
    requires
        mesh.wf(),
        mesh.n() >= 3,
        hull_is_ring(mesh),
    ensures
        shape_vertices(mesh, eps, max_len) == members(whole_ring(mesh.n() as nat)),
{
    let n = mesh.n();
    let total = mesh.hull@.len();
    lemma_hull_of_ring(mesh, total);
    mesh.lemma_edge_fits(mesh.hull@[0] as int);
    lemma_constraints_stay(
        mesh,
        hull_queue(mesh, total),
        hull_vertices(mesh, total),
        total,
        eps * eps,
        max_len,
    );
    assert(mesh.points.len() == n);
    assert forall|v: usize|
        hull_vertices(mesh, total).contains(v) <==> members(whole_ring(n as nat)).contains(
            v,
        ) by {
        if v < n {
            assert(whole_ring(n as nat)[v as int] == v);
        }
        if whole_ring(n as nat).contains(v) {
            let ring = whole_ring(n as nat);
            let i = choose|i: int| 0 <= i < ring.len() && ring[i] == v;
            assert(v == i);
        }
    }
    assert(hull_vertices(mesh, total) =~= members(whole_ring(n as nat)));
}

} // verus!
