//! What the reduced ring keeps of the ring it was made from: the order of its
//! vertices, and its shape to within the tolerance.
use crate::geometry::within;
use crate::mesh::{ring_pred, Mesh};
use crate::segments::{joined, rest_of};
use crate::simplify_rdp::{
    all_within, chord, hull_chains, lemma_chain_halves, lemma_chain_whole, rdp_chain,
    reduced_ring, span_len, split_of, strictly_inside, SimplifyError,
};
use crate::visibility::in_span;
use vstd::prelude::*;

verus! {

/// Every chord of a chain stands for the arc it replaces: it is a constraint edge
/// of the ring, or no vertex of its arc is farther than `eps` from it. The chain
/// starts at `from` and ends at `to`.
pub proof fn lemma_chain_chords_within(mesh: &Mesh, from: int, to: int, eps: nat)
    requires
        mesh.wf(),
        0 <= from < mesh.n(),
        0 <= to < mesh.n(),
        rdp_chain(mesh, from, to, eps).is_ok(),
    ensures
        ({
            let chain = rdp_chain(mesh, from, to, eps).unwrap();
            &&& chain.len() >= 2
            &&& chain[0] == from
            &&& chain[chain.len() - 1] == to
            &&& forall|i: int|
                0 <= i < chain.len() - 1 ==> mesh.is_constraint(
                    (#[trigger] chain[i]) as int,
                    chain[i + 1] as int,
                ) || all_within(mesh, chain[i] as int, chain[i + 1] as int, eps)
        }),
    decreases span_len(from, to, mesh.n()),
{
    if mesh.is_constraint(from, to) || all_within(mesh, from, to, eps) {
        lemma_chain_whole(mesh, from, to, eps);
        assert(mesh.points.len() == mesh.n());
        assert(chord(from, to)[0] == from);
    } else {
        lemma_chain_halves(mesh, from, to, eps);
        let split = split_of(mesh, from, to) as int;
        lemma_chain_chords_within(mesh, from, split, eps);
        lemma_chain_chords_within(mesh, split, to, eps);
        let left = rdp_chain(mesh, from, split, eps).unwrap();
        let right = rdp_chain(mesh, split, to, eps).unwrap();
        let chain = left.drop_last() + right;
        assert(chain == rdp_chain(mesh, from, to, eps).unwrap());
        assert forall|i: int| 0 <= i < chain.len() - 1 implies mesh.is_constraint(
            (#[trigger] chain[i]) as int,
            chain[i + 1] as int,
        ) || all_within(mesh, chain[i] as int, chain[i + 1] as int, eps) by {
            if i < left.len() - 1 {
                assert(chain[i] == left[i]);
                assert(chain[i + 1] == left[i + 1]);
            } else {
                let k = i - (left.len() - 1);
                assert(chain[i] == right[k]);
                assert(chain[i + 1] == right[k + 1]);
            }
        }
    }
}

/// A chain runs along the ring without turning back: every vertex of it lies on the
/// arc from `from` to `to`, and each lies farther along that arc than the one before
/// it. So the chain is the arc with some of its vertices left out.
pub proof fn lemma_chain_in_ring_order(mesh: &Mesh, from: int, to: int, eps: nat)
    requires
        mesh.wf(),
        0 <= from < mesh.n(),
        0 <= to < mesh.n(),
        from != to,
        rdp_chain(mesh, from, to, eps).is_ok(),
    ensures
        ({
            let chain = rdp_chain(mesh, from, to, eps).unwrap();
            &&& forall|i: int|
                0 <= i < chain.len() ==> (#[trigger] chain[i]) < mesh.n() && in_span(
                    from,
                    to,
                    chain[i] as int,
                )
            &&& forall|i: int, j: int|
                0 <= i < j < chain.len() ==> span_len(from, (#[trigger] chain[i]) as int, mesh.n())
                    < span_len(from, (#[trigger] chain[j]) as int, mesh.n())
        }),
    decreases span_len(from, to, mesh.n()),
{
    let n = mesh.n();
    if mesh.is_constraint(from, to) || all_within(mesh, from, to, eps) {
        lemma_chain_whole(mesh, from, to, eps);
        let chain = chord(from, to);
        assert(mesh.points.len() == mesh.n());
        assert(chain[0] == from && chain[1] == to);
    } else {
        lemma_chain_halves(mesh, from, to, eps);
        let split = split_of(mesh, from, to) as int;
        lemma_chain_chords_within(mesh, from, split, eps);
        lemma_chain_chords_within(mesh, split, to, eps);
        lemma_chain_in_ring_order(mesh, from, split, eps);
        lemma_chain_in_ring_order(mesh, split, to, eps);
        let left = rdp_chain(mesh, from, split, eps).unwrap();
        let right = rdp_chain(mesh, split, to, eps).unwrap();
        let chain = left.drop_last() + right;
        assert(chain == rdp_chain(mesh, from, to, eps).unwrap());
        assert forall|i: int| 0 <= i < chain.len() implies (#[trigger] chain[i]) < n && in_span(
            from,
            to,
            chain[i] as int,
        ) && span_len(from, chain[i] as int, n) == (if i < left.len() - 1 {
            span_len(from, left[i] as int, n)
        } else {
            span_len(from, split, n) + span_len(split, right[i - (left.len() - 1)] as int, n)
        }) by {
            if i < left.len() - 1 {
                assert(chain[i] == left[i]);
            } else {
                assert(chain[i] == right[i - (left.len() - 1)]);
            }
        }
        assert forall|i: int, j: int| 0 <= i < j < chain.len() implies span_len(
            from,
            (#[trigger] chain[i]) as int,
            n,
        ) < span_len(from, (#[trigger] chain[j]) as int, n) by {
            let m = left.len() - 1;
            if j < m {
                assert(chain[i] == left[i] && chain[j] == left[j]);
            } else if i < m {
                assert(chain[i] == left[i]);
                assert(span_len(from, left[i] as int, n) < span_len(from, left[m] as int, n));
                assert(chain[j] == right[j - m]);
                if j > m {
                    assert(span_len(split, right[0] as int, n) < span_len(
                        split,
                        right[j - m] as int,
                        n,
                    ));
                }
            } else {
                assert(chain[i] == right[i - m] && chain[j] == right[j - m]);
            }
        }
    }
}

/// The vertex at which hull edge `i` starts.
pub open spec fn hull_from(mesh: &Mesh, i: int) -> int {
    mesh.edges@[mesh.hull@[i] as int].from as int
}

/// The vertex at which hull edge `i` ends.
pub open spec fn hull_to(mesh: &Mesh, i: int) -> int {
    mesh.edges@[mesh.hull@[i] as int].to as int
}

/// The number of ring edges under the first `k` hull edges.
pub open spec fn arcs_total(mesh: &Mesh, k: nat) -> int
    decreases k,
{
    if k == 0 {
        0
    } else {
        arcs_total(mesh, (k - 1) as nat) + span_len(
            hull_from(mesh, k - 1),
            hull_to(mesh, k - 1),
            mesh.n(),
        )
    }
}

/// The walk around the hull follows the ring: every hull edge starts where the one
/// before it ended, the last ends where the first started, and the arcs under the
/// hull edges make up the ring exactly once. This holds of a ring that winds the way
/// its triangulation walks the hull.
pub open spec fn hull_follows_ring(mesh: &Mesh) -> bool {
    let k = mesh.hull@.len() as int;
    &&& k >= 1
    &&& forall|i: int| 0 <= i < k ==> #[trigger] hull_from(mesh, i) != hull_to(mesh, i)
    &&& forall|i: int| 0 <= i < k - 1 ==> #[trigger] hull_to(mesh, i) == hull_from(mesh, i + 1)
    &&& hull_to(mesh, k - 1) == hull_from(mesh, 0)
    &&& arcs_total(mesh, k as nat) == mesh.n()
}

/// A walk that starts at `start` goes forward along a ring of `n` for `total` ring
/// edges: each vertex but the last lies farther from `start` than the one before it
/// and less than `total` away, and the last lies `total` away, which for a whole
/// turn is `start` again.
pub open spec fn goes_forward(walk: Seq<usize>, start: int, total: int, n: int) -> bool {
    &&& walk.len() >= 1
    &&& walk[0] == start
    &&& 0 <= total <= n
    &&& forall|i: int| 0 <= i < walk.len() ==> (#[trigger] walk[i]) < n
    &&& forall|i: int|
        0 <= i < walk.len() - 1 ==> span_len(start, (#[trigger] walk[i]) as int, n) < total
    &&& forall|i: int, j: int|
        0 <= i < j < walk.len() - 1 ==> span_len(start, (#[trigger] walk[i]) as int, n)
            < span_len(start, (#[trigger] walk[j]) as int, n)
    &&& (total < n ==> span_len(start, walk.last() as int, n) == total)
    &&& (total == n ==> walk.last() == start)
}

proof fn lemma_hull_chains_each(mesh: &Mesh, eps: nat, k: nat)
    requires
        hull_chains(mesh, eps, k).is_ok(),
    ensures
        hull_chains(mesh, eps, k).unwrap().len() == k,
        forall|i: int|
            0 <= i < k ==> rdp_chain(
                mesh,
                #[trigger] hull_from(mesh, i),
                hull_to(mesh, i),
                eps,
            ).is_ok() && hull_chains(mesh, eps, k).unwrap()[i] == rdp_chain(
                mesh,
                hull_from(mesh, i),
                hull_to(mesh, i),
                eps,
            ).unwrap(),
        k > 0 ==> hull_chains(mesh, eps, (k - 1) as nat).is_ok() && hull_chains(
            mesh,
            eps,
            (k - 1) as nat,
        ).unwrap() == hull_chains(mesh, eps, k).unwrap().drop_last(),
    decreases k,
{
    if k > 0 {
        lemma_hull_chains_each(mesh, eps, (k - 1) as nat);
        let before = hull_chains(mesh, eps, (k - 1) as nat).unwrap();
        let chain = rdp_chain(mesh, hull_from(mesh, k - 1), hull_to(mesh, k - 1), eps).unwrap();
        assert(hull_chains(mesh, eps, k).unwrap() == before.push(chain));
        assert(before.push(chain).drop_last() =~= before);
    }
}

proof fn lemma_arcs_grow(mesh: &Mesh, k: nat, total: nat)
    requires
        mesh.wf(),
        k <= total <= mesh.hull@.len(),
        forall|i: int|
            0 <= i < mesh.hull@.len() ==> #[trigger] hull_from(mesh, i) != hull_to(mesh, i),
    ensures
        arcs_total(mesh, k) + (total - k) <= arcs_total(mesh, total),
        0 <= arcs_total(mesh, k),
    decreases total,
{
    if k < total {
        lemma_arcs_grow(mesh, k, (total - 1) as nat);
        let e = mesh.edges@[mesh.hull@[total - 1] as int];
        mesh.lemma_edge_fits(mesh.hull@[total - 1] as int);
        assert(hull_from(mesh, total - 1) != hull_to(mesh, total - 1));
        assert(e.from < mesh.n() && e.to < mesh.n());
    } else if k > 0 {
        lemma_arcs_grow(mesh, (k - 1) as nat, (k - 1) as nat);
        let e = mesh.edges@[mesh.hull@[k - 1] as int];
        mesh.lemma_edge_fits(mesh.hull@[k - 1] as int);
        assert(hull_from(mesh, k - 1) != hull_to(mesh, k - 1));
        assert(e.from < mesh.n() && e.to < mesh.n());
    }
}

/// Going on from the end of a forward walk along a chain that itself runs forward
/// gives a forward walk.
proof fn lemma_walk_goes_on(
    walk: Seq<usize>,
    chain: Seq<usize>,
    start: int,
    total: int,
    arc_to: int,
    n: int,
)
    requires
        goes_forward(walk, start, total, n),
        0 <= start < n,
        0 <= arc_to < n,
        total < n,
        chain.len() >= 2,
        chain[0] == walk.last(),
        chain[chain.len() - 1] == arc_to,
        arc_to != chain[0] as int,
        total + span_len(chain[0] as int, arc_to, n) <= n,
        forall|i: int| 0 <= i < chain.len() ==> (#[trigger] chain[i]) < n,
        forall|i: int, j: int|
            0 <= i < j < chain.len() ==> span_len(chain[0] as int, (#[trigger] chain[i]) as int, n)
                < span_len(chain[0] as int, (#[trigger] chain[j]) as int, n),
    ensures
        goes_forward(
            walk + rest_of(chain),
            start,
            total + span_len(chain[0] as int, arc_to, n),
            n,
        ),
{
    let from = chain[0] as int;
    let next = walk + rest_of(chain);
    let sum = total + span_len(from, arc_to, n);
    let old_len = walk.len() as int;
    assert(next.len() == old_len + chain.len() - 1);
    assert forall|i: int| 0 <= i < next.len() implies (#[trigger] next[i]) < n && (i < old_len
        ==> next[i] == walk[i]) && (i >= old_len ==> next[i] == chain[i - old_len + 1]) by {
        if i >= old_len {
            assert(rest_of(chain)[i - old_len] == chain[i - old_len + 1]);
        }
    }
    assert(span_len(start, from, n) == total);
    assert forall|i: int| 0 <= i < next.len() - 1 implies span_len(
        start,
        (#[trigger] next[i]) as int,
        n,
    ) < sum && (i >= old_len ==> span_len(start, next[i] as int, n) == total + span_len(
        from,
        next[i] as int,
        n,
    )) by {
        if i >= old_len {
            let c = i - old_len + 1;
            assert(next[i] == chain[c]);
            assert(span_len(from, chain[0] as int, n) < span_len(from, chain[c] as int, n));
            assert(span_len(from, chain[c] as int, n) < span_len(
                from,
                chain[chain.len() - 1] as int,
                n,
            ));
        } else if i == old_len - 1 {
            assert(next[i] == walk.last());
        } else {
            assert(next[i] == walk[i]);
        }
    }
    assert forall|i: int, j: int| 0 <= i < j < next.len() - 1 implies span_len(
        start,
        (#[trigger] next[i]) as int,
        n,
    ) < span_len(start, (#[trigger] next[j]) as int, n) by {
        if j < old_len - 1 {
            assert(next[i] == walk[i] && next[j] == walk[j]);
        } else if j == old_len - 1 {
            assert(next[i] == walk[i]);
            assert(next[j] == walk.last());
        } else {
            let cj = j - old_len + 1;
            assert(next[j] == chain[cj]);
            assert(span_len(from, chain[0] as int, n) < span_len(from, chain[cj] as int, n));
            if i >= old_len {
                let ci = i - old_len + 1;
                assert(next[i] == chain[ci]);
                assert(span_len(from, chain[ci] as int, n) < span_len(from, chain[cj] as int, n));
            } else if i == old_len - 1 {
                assert(next[i] == walk.last());
            } else {
                assert(next[i] == walk[i]);
            }
        }
    }
    assert(next.last() == chain[chain.len() - 1]);
}

/// With a hull that follows the ring, the reduced ring is the ring with some of its
/// vertices left out: it starts at the first hull vertex, runs forward along the ring
/// without turning back, and closes on the vertex it started with after one turn.
pub proof fn lemma_reduced_ring_in_order(mesh: &Mesh, eps: nat)
    requires
        mesh.wf(),
        mesh.n() >= 3,
        hull_follows_ring(mesh),
        reduced_ring(mesh, eps).is_ok(),
    ensures
        goes_forward(reduced_ring(mesh, eps).unwrap(), hull_from(mesh, 0), mesh.n(), mesh.n()),
{
    let total = mesh.hull@.len();
    let chains = hull_chains(mesh, eps, total).unwrap();
    lemma_hull_chains_each(mesh, eps, total);
    lemma_walk_upto(mesh, eps, total);
}

proof fn lemma_walk_upto(mesh: &Mesh, eps: nat, k: nat)
    requires
        mesh.wf(),
        mesh.n() >= 3,
        hull_follows_ring(mesh),
        1 <= k <= mesh.hull@.len(),
        hull_chains(mesh, eps, k).is_ok(),
    ensures
        goes_forward(
            joined(hull_chains(mesh, eps, k).unwrap()),
            hull_from(mesh, 0),
            arcs_total(mesh, k),
            mesh.n(),
        ),
        joined(hull_chains(mesh, eps, k).unwrap()).last() == hull_to(mesh, k - 1),
    decreases k,
{
    let n = mesh.n();
    let start = hull_from(mesh, 0);
    let chains = hull_chains(mesh, eps, k).unwrap();
    lemma_hull_chains_each(mesh, eps, k);
    let from = hull_from(mesh, k - 1);
    let to = hull_to(mesh, k - 1);
    let e = mesh.edges@[mesh.hull@[k - 1] as int];
    mesh.lemma_edge_fits(mesh.hull@[k - 1] as int);
    let first = mesh.edges@[mesh.hull@[0] as int];
    mesh.lemma_edge_fits(mesh.hull@[0] as int);
    assert(e.from < n && e.to < n && first.from < n);
    assert(hull_from(mesh, k - 1) != hull_to(mesh, k - 1));
    let chain = chains[k - 1];
    assert(chain == rdp_chain(mesh, from, to, eps).unwrap());
    lemma_chain_chords_within(mesh, from, to, eps);
    lemma_chain_in_ring_order(mesh, from, to, eps);
    lemma_arcs_grow(mesh, k, mesh.hull@.len());
    lemma_arcs_grow(mesh, (k - 1) as nat, (k - 1) as nat);
    if k == 1 {
        assert(chains.len() == 1);
        assert(joined(chains) == chain);
        let walk = seq![start as usize];
        assert(mesh.points.len() == n);
        assert(goes_forward(walk, start, 0, n));
        lemma_walk_goes_on(walk, chain, start, 0, to, n);
        assert(walk + rest_of(chain) =~= chain);
    } else {
        lemma_walk_upto(mesh, eps, (k - 1) as nat);
        let before = hull_chains(mesh, eps, (k - 1) as nat).unwrap();
        assert(before == chains.drop_last());
        let walk = joined(before);
        assert(joined(chains) == walk + rest_of(chain));
        assert(hull_to(mesh, k - 2) == hull_from(mesh, k - 2 + 1));
        lemma_arcs_grow(mesh, (k - 1) as nat, k);
        lemma_walk_goes_on(walk, chain, start, arcs_total(mesh, (k - 1) as nat), to, n);
    }
}

/// Every chord of the walk is a constraint edge of the ring, or no vertex of the arc
/// that it replaces is farther than `eps` from it.
pub open spec fn chords_stand(mesh: &Mesh, walk: Seq<usize>, eps: nat) -> bool {
    forall|i: int|
        0 <= i < walk.len() - 1 ==> mesh.is_constraint(
            (#[trigger] walk[i]) as int,
            walk[i + 1] as int,
        ) || all_within(mesh, walk[i] as int, walk[i + 1] as int, eps)
}

proof fn lemma_chords_upto(mesh: &Mesh, eps: nat, k: nat)
    requires
        mesh.wf(),
        mesh.n() >= 3,
        hull_follows_ring(mesh),
        1 <= k <= mesh.hull@.len(),
        hull_chains(mesh, eps, k).is_ok(),
    ensures
        chords_stand(mesh, joined(hull_chains(mesh, eps, k).unwrap()), eps),
        joined(hull_chains(mesh, eps, k).unwrap()).len() >= 2,
        joined(hull_chains(mesh, eps, k).unwrap()).last() == hull_to(mesh, k - 1),
    decreases k,
{
    let n = mesh.n();
    let chains = hull_chains(mesh, eps, k).unwrap();
    lemma_hull_chains_each(mesh, eps, k);
    let from = hull_from(mesh, k - 1);
    let to = hull_to(mesh, k - 1);
    let e = mesh.edges@[mesh.hull@[k - 1] as int];
    mesh.lemma_edge_fits(mesh.hull@[k - 1] as int);
    assert(e.from < n && e.to < n);
    let chain = chains[k - 1];
    assert(chain == rdp_chain(mesh, from, to, eps).unwrap());
    lemma_chain_chords_within(mesh, from, to, eps);
    if k == 1 {
        assert(chains.len() == 1);
        assert(joined(chains) == chain);
    } else {
        lemma_chords_upto(mesh, eps, (k - 1) as nat);
        let before = hull_chains(mesh, eps, (k - 1) as nat).unwrap();
        assert(before == chains.drop_last());
        let walk = joined(before);
        let next = walk + rest_of(chain);
        assert(joined(chains) == next);
        assert(hull_to(mesh, k - 2) == hull_from(mesh, k - 2 + 1));
        let old_len = walk.len() as int;
        assert forall|i: int| 0 <= i < next.len() - 1 implies mesh.is_constraint(
            (#[trigger] next[i]) as int,
            next[i + 1] as int,
        ) || all_within(mesh, next[i] as int, next[i + 1] as int, eps) by {
            if i + 1 < old_len {
                assert(next[i] == walk[i] && next[i + 1] == walk[i + 1]);
            } else {
                let c = i - old_len + 1;
                assert(rest_of(chain)[c] == chain[c + 1]);
                assert(next[i + 1] == chain[c + 1]);
                if c > 0 {
                    assert(rest_of(chain)[c - 1] == chain[c]);
                }
                assert(next[i] == chain[c]);
            }
        }
        assert(next.last() == chain[chain.len() - 1]);
    }
}

/// With a hull that follows the ring, every chord of the reduced ring is a
/// constraint edge of the ring, or no vertex of the arc that it replaces is farther
/// than `eps` from it.
pub proof fn lemma_reduced_ring_within(mesh: &Mesh, eps: nat)
    requires
        mesh.wf(),
        mesh.n() >= 3,
        hull_follows_ring(mesh),
        reduced_ring(mesh, eps).is_ok(),
    ensures
        chords_stand(mesh, reduced_ring(mesh, eps).unwrap(), eps),
{
    lemma_chords_upto(mesh, eps, mesh.hull@.len());
}

proof fn lemma_arcs_monotone(mesh: &Mesh, k: nat, total: nat)
    requires
        mesh.wf(),
        k <= total <= mesh.hull@.len(),
    ensures
        0 <= arcs_total(mesh, k) <= arcs_total(mesh, total),
    decreases total,
{
    if k < total {
        lemma_arcs_monotone(mesh, k, (total - 1) as nat);
        let e = mesh.edges@[mesh.hull@[total - 1] as int];
        mesh.lemma_edge_fits(mesh.hull@[total - 1] as int);
        assert(e.from < mesh.n() && e.to < mesh.n());
    } else if k > 0 {
        lemma_arcs_monotone(mesh, (k - 1) as nat, (k - 1) as nat);
        let e = mesh.edges@[mesh.hull@[k - 1] as int];
        mesh.lemma_edge_fits(mesh.hull@[k - 1] as int);
        assert(e.from < mesh.n() && e.to < mesh.n());
    }
}

/// Whether the walk around the hull follows the ring.
pub fn follows_ring(mesh: &Mesh) -> (r: bool)
    requires
        mesh.wf(),
    ensures
        r == hull_follows_ring(mesh),
{
    let n: usize = mesh.num_vertices();
    let count: usize = mesh.hull.len();
    if count == 0 {
        return false;
    }
    let first = mesh.edge(mesh.hull[0]);
    let mut total: usize = 0;
    let mut k: usize = 0;
    while k < count
        invariant
            mesh.wf(),
            n == mesh.n(),
            count == mesh.hull@.len(),
            k <= count,
            total == arcs_total(mesh, k as nat),
            total <= n,
            first == mesh.edges@[mesh.hull@[0] as int],
            k == count ==> hull_to(mesh, count - 1) == hull_from(mesh, 0),
            forall|i: int| 0 <= i < k ==> #[trigger] hull_from(mesh, i) != hull_to(mesh, i),
            forall|i: int|
                0 <= i < k && i < count - 1 ==> #[trigger] hull_to(mesh, i) == hull_from(
                    mesh,
                    i + 1,
                ),
        decreases count - k,
    {
        let e = mesh.edge(mesh.hull[k]);
        let after: usize = if k + 1 < count {
            mesh.edge(mesh.hull[k + 1]).from
        } else {
            first.from
        };
        if e.from == e.to || e.to != after {
            proof {
                assert(hull_from(mesh, k as int) == e.from && hull_to(mesh, k as int) == e.to);
                if k + 1 < count {
                    assert(hull_from(mesh, k + 1) == after);
                }
            }
            return false;
        }
        let arc: usize = if e.from <= e.to {
            e.to - e.from
        } else {
            e.to + (n - e.from)
        };
        if arc > n - total {
            proof {
                lemma_arcs_monotone(mesh, (k + 1) as nat, count as nat);
            }
            return false;
        }
        total = total + arc;
        k += 1;
    }
    total == n
}

/// The convex hull of the ring is the ring itself: the hull follows the ring and has
/// as many edges as the ring has vertices.
pub open spec fn hull_is_ring(mesh: &Mesh) -> bool {
    hull_follows_ring(mesh) && mesh.hull@.len() == mesh.n()
}

/// Where the hull is the ring, each hull edge is an edge of the ring.
pub proof fn lemma_hull_edges_are_ring_edges(mesh: &Mesh, k: nat)
    requires
        mesh.wf(),
        mesh.n() >= 3,
        hull_is_ring(mesh),
        k <= mesh.hull@.len(),
    ensures
        arcs_total(mesh, k) == k,
        k > 0 ==> mesh.is_constraint(hull_from(mesh, k - 1), hull_to(mesh, k - 1)),
{
    lemma_arcs_grow(mesh, k, mesh.hull@.len());
    lemma_arcs_grow(mesh, 0, k);
    if k > 0 {
        lemma_arcs_grow(mesh, (k - 1) as nat, mesh.hull@.len());
        lemma_arcs_grow(mesh, 0, (k - 1) as nat);
        let e = mesh.edges@[mesh.hull@[k - 1] as int];
        mesh.lemma_edge_fits(mesh.hull@[k - 1] as int);
        assert(e.from < mesh.n() && e.to < mesh.n());
        mesh.lemma_constraints_are_ring_edges(hull_from(mesh, k - 1), hull_to(mesh, k - 1));
    }
}

proof fn lemma_convex_upto(mesh: &Mesh, eps: nat, k: nat)
    requires
        mesh.wf(),
        mesh.n() >= 3,
        hull_is_ring(mesh),
        k <= mesh.hull@.len(),
    ensures
        hull_chains(mesh, eps, k).is_ok(),
        hull_chains(mesh, eps, k).unwrap().len() == k,
        k > 0 ==> joined(hull_chains(mesh, eps, k).unwrap()).len() == k + 1,
    decreases k,
{
    if k > 0 {
        lemma_convex_upto(mesh, eps, (k - 1) as nat);
        lemma_hull_edges_are_ring_edges(mesh, k);
        let e = mesh.edges@[mesh.hull@[k - 1] as int];
        mesh.lemma_edge_fits(mesh.hull@[k - 1] as int);
        assert(e.from < mesh.n() && e.to < mesh.n());
        let from = hull_from(mesh, k - 1);
        let to = hull_to(mesh, k - 1);
        lemma_chain_whole(mesh, from, to, eps);
        let before = hull_chains(mesh, eps, (k - 1) as nat).unwrap();
        let chains = before.push(chord(from, to));
        assert(hull_chains(mesh, eps, k) == Ok::<Seq<Seq<usize>>, SimplifyError>(chains));
        assert(chains.drop_last() =~= before);
        assert(chains.last() == chord(from, to));
        if k == 1 {
            assert(joined(chains) == chord(from, to));
        } else {
            assert(joined(chains) == joined(before) + rest_of(chord(from, to)));
        }
    }
}

/// A ring that is its own convex hull is kept whole, whatever `eps` is: the reduced
/// ring holds every vertex once, in the order of the ring, and the first of them
/// again at its end.
pub proof fn lemma_convex_ring_is_kept(mesh: &Mesh, eps: nat)
    requires
        mesh.wf(),
        mesh.n() >= 3,
        hull_is_ring(mesh),
    ensures
        reduced_ring(mesh, eps).is_ok(),
        reduced_ring(mesh, eps).unwrap().len() == mesh.n() + 1,
        goes_forward(reduced_ring(mesh, eps).unwrap(), hull_from(mesh, 0), mesh.n(), mesh.n()),
{
    lemma_convex_upto(mesh, eps, mesh.hull@.len());
    lemma_reduced_ring_in_order(mesh, eps);
}

proof fn lemma_walk_length(mesh: &Mesh, eps: nat, k: nat)
    requires
        mesh.wf(),
        mesh.n() >= 3,
        1 <= k <= mesh.hull@.len(),
        hull_chains(mesh, eps, k).is_ok(),
    ensures
        joined(hull_chains(mesh, eps, k).unwrap()).len() >= k + 1,
    decreases k,
{
    let chains = hull_chains(mesh, eps, k).unwrap();
    lemma_hull_chains_each(mesh, eps, k);
    mesh.lemma_edge_fits(mesh.hull@[k - 1] as int);
    lemma_chain_chords_within(mesh, hull_from(mesh, k - 1), hull_to(mesh, k - 1), eps);
    assert(chains[k - 1].len() >= 2);
    if k == 1 {
        assert(joined(chains) == chains[0]);
    } else {
        lemma_walk_length(mesh, eps, (k - 1) as nat);
        assert(joined(chains) == joined(chains.drop_last()) + rest_of(chains.last()));
    }
}

/// A walk of four or more vertices that goes forward once around the ring takes no
/// step back to the vertex just before the one it stands on.
proof fn lemma_no_step_back(walk: Seq<usize>, start: int, n: int, i: int)
    requires
        goes_forward(walk, start, n, n),
        0 <= start < n,
        n >= 3,
        walk.len() >= 4,
        0 <= i < walk.len() - 1,
    ensures
        walk[i + 1] != ring_pred(walk[i] as int, n),
{
    let a = walk[i] as int;
    let b = walk[i + 1] as int;
    assert(walk[i] < n && walk[i + 1] < n);
    if b == ring_pred(a, n) {
        assert(span_len(start, walk[0] as int, n) == 0);
        if i + 1 < walk.len() - 1 {
            assert(span_len(start, a, n) < span_len(start, b, n));
            if i > 0 {
                assert(span_len(start, walk[0] as int, n) < span_len(start, walk[i] as int, n));
            }
            assert(span_len(start, walk[1] as int, n) < span_len(start, walk[2] as int, n));
            assert(span_len(start, walk[2] as int, n) < n);
        } else {
            assert(b == start);
            assert(span_len(start, walk[0] as int, n) < span_len(start, walk[1] as int, n));
            if i > 1 {
                assert(span_len(start, walk[1] as int, n) < span_len(start, walk[i] as int, n));
            }
        }
        assert(false);
    }
}

proof fn lemma_all_within_at(mesh: &Mesh, a: int, b: int, eps: nat, v: int)
    requires
        all_within(mesh, a, b, eps),
        0 <= v < mesh.n(),
        in_span(a, b, v),
    ensures
        within(mesh.points@[a], mesh.points@[b], mesh.points@[v], eps),
{
}

/// With a hull of three or more edges that follows the ring, every vertex that the
/// reduced ring leaves out lies within `eps` of the chord that replaces it: the
/// chord between the two kept vertices on either side of it.
pub proof fn lemma_removed_vertices_within(mesh: &Mesh, eps: nat)
    requires
        mesh.wf(),
        mesh.n() >= 3,
        hull_follows_ring(mesh),
        mesh.hull@.len() >= 3,
        reduced_ring(mesh, eps).is_ok(),
    ensures
        ({
            let kept = reduced_ring(mesh, eps).unwrap();
            forall|i: int, v: int|
                0 <= i < kept.len() - 1 && strictly_inside(
                    (#[trigger] kept[i]) as int,
                    kept[i + 1] as int,
                    v,
                    mesh.n(),
                ) ==> within(
                    mesh.points@[kept[i] as int],
                    mesh.points@[kept[i + 1] as int],
                    #[trigger] mesh.points@[v],
                    eps,
                )
        }),
{
    let n = mesh.n();
    let kept = reduced_ring(mesh, eps).unwrap();
    let start = hull_from(mesh, 0);
    lemma_reduced_ring_in_order(mesh, eps);
    lemma_reduced_ring_within(mesh, eps);
    lemma_walk_length(mesh, eps, mesh.hull@.len());
    mesh.lemma_edge_fits(mesh.hull@[0] as int);
    assert(kept.len() >= 4);
    assert forall|i: int, v: int|
        0 <= i < kept.len() - 1 && strictly_inside(
            (#[trigger] kept[i]) as int,
            kept[i + 1] as int,
            v,
            n,
        ) implies within(
        mesh.points@[kept[i] as int],
        mesh.points@[kept[i + 1] as int],
        #[trigger] mesh.points@[v],
        eps,
    ) by {
        let a = kept[i] as int;
        let b = kept[i + 1] as int;
        assert(kept[i] < n && kept[i + 1] < n);
        if all_within(mesh, a, b, eps) {
            lemma_all_within_at(mesh, a, b, eps, v);
        } else {
            assert(mesh.is_constraint(a, b));
            mesh.lemma_constraints_are_ring_edges(a, b);
            lemma_no_step_back(kept, start, n, i);
        }
    }
}

} // verus!
