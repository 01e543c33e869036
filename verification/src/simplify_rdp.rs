//! Farthest-point reduction of the ring, split only at vertices that both ends of a
//! chord can see.
use crate::geometry::{
    chord_length_2, chord_offset, is_offset_within, offset, offset_within, within, Point,
};
use crate::index_set::{ascending, members};
use crate::mesh::Mesh;
use crate::ring_order::{
    chords_stand, goes_forward, hull_follows_ring, hull_from, hull_is_ring,
    lemma_chain_chords_within, lemma_convex_ring_is_kept, lemma_reduced_ring_in_order,
    lemma_reduced_ring_within,
};
use crate::segments::{join_segments, joined, views, LineString};
use crate::visibility::{
    below, in_span, mutually_visible, sights_end, visibility_intersection,
};
use vstd::prelude::*;

verus! {

/// Why a ring could not be reduced.
#[derive(Clone, Copy, Debug, PartialEq, Eq, Structural)]
pub enum SimplifyError {
    /// A walk through the triangulation did not end by itself: the arena is not a
    /// planar triangulation.
    WalkCutOff,
    /// The vertex chosen to split a chord was one of its ends: the two ends of the
    /// chord see nothing between them.
    SplitAtEndpoint,
}

/// The number of ring edges on the arc from `from` forward to `to`.
pub open spec fn span_len(from: int, to: int, n: int) -> int {
    if from <= to {
        to - from
    } else {
        to + n - from
    }
}

/// Every vertex on the arc from `from` to `to` lies within `eps` of the chord that
/// joins the two.
pub open spec fn all_within(mesh: &Mesh, from: int, to: int, eps: nat) -> bool {
    forall|v: int|
        0 <= v < mesh.n() && in_span(from, to, v) ==> within(
            mesh.points@[from],
            mesh.points@[to],
            #[trigger] mesh.points@[v],
            eps,
        )
}

/// Vertex `v` is the one at which the chord from `from` to `to` is split: of the
/// vertices that both ends see it is the farthest from the chord, and of several
/// equally far ones the one with the smallest index.
pub open spec fn is_split(mesh: &Mesh, from: int, to: int, v: usize) -> bool {
    let seen = mutually_visible(mesh, from, to);
    let a = mesh.points@[from];
    let b = mesh.points@[to];
    &&& seen.contains(v)
    &&& forall|w: usize| #[trigger]
        seen.contains(w) ==> offset(a, b, mesh.points@[w as int]) <= offset(
            a,
            b,
            mesh.points@[v as int],
        )
    &&& forall|w: usize| #[trigger]
        seen.contains(w) && offset(a, b, mesh.points@[w as int]) == offset(
            a,
            b,
            mesh.points@[v as int],
        ) ==> v <= w
}

/// The vertex at which the chord is split; `from` itself where the ends see nothing.
pub open spec fn split_of(mesh: &Mesh, from: int, to: int) -> usize {
    if exists|v: usize| is_split(mesh, from, to, v) {
        choose|v: usize| is_split(mesh, from, to, v)
    } else {
        from as usize
    }
}

/// Position `v` lies on the arc from `from` to `to` and is neither of its ends.
pub open spec fn strictly_inside(from: int, to: int, v: int, n: int) -> bool {
    0 <= v < n && in_span(from, to, v) && v != from && v != to
}

/// The two-element chain of a chord that is kept whole.
pub open spec fn chord(from: int, to: int) -> Seq<usize> {
    seq![from as usize, to as usize]
}

/// The vertices kept on the arc from `from` to `to`, both ends included.
///
/// A chord that is a constraint edge, or from which no vertex of its arc is farther
/// than `eps`, is kept whole. Any other chord is split at [`split_of`] and both
/// halves are reduced in the same way.
#[verifier::opaque]
pub open spec fn rdp_chain(mesh: &Mesh, from: int, to: int, eps: nat) -> Result<
    Seq<usize>,
    SimplifyError,
>
    decreases span_len(from, to, mesh.n()),
    when 0 <= from < mesh.n() && 0 <= to < mesh.n()
{
    if mesh.is_constraint(from, to) || all_within(mesh, from, to, eps) {
        Ok(chord(from, to))
    } else if !sights_end(mesh, from, to) {
        Err(SimplifyError::WalkCutOff)
    } else {
        let split = split_of(mesh, from, to) as int;
        if !strictly_inside(from, to, split, mesh.n()) {
            Err(SimplifyError::SplitAtEndpoint)
        } else {
            match rdp_chain(mesh, from, split, eps) {
                Err(e) => Err(e),
                Ok(left) => match rdp_chain(mesh, split, to, eps) {
                    Err(e) => Err(e),
                    Ok(right) => Ok(left.drop_last() + right),
                },
            }
        }
    }
}

/// A chain that is not a single chord is made of the chains of its two halves.
pub proof fn lemma_chain_halves(mesh: &Mesh, from: int, to: int, eps: nat)
    requires
        0 <= from < mesh.n(),
        0 <= to < mesh.n(),
        rdp_chain(mesh, from, to, eps).is_ok(),
        !(mesh.is_constraint(from, to) || all_within(mesh, from, to, eps)),
    ensures
        ({
            let split = split_of(mesh, from, to) as int;
            &&& strictly_inside(from, to, split, mesh.n())
            &&& span_len(from, split, mesh.n()) < span_len(from, to, mesh.n())
            &&& span_len(split, to, mesh.n()) < span_len(from, to, mesh.n())
            &&& rdp_chain(mesh, from, split, eps).is_ok()
            &&& rdp_chain(mesh, split, to, eps).is_ok()
            &&& rdp_chain(mesh, from, to, eps).unwrap() == rdp_chain(
                mesh,
                from,
                split,
                eps,
            ).unwrap().drop_last() + rdp_chain(mesh, split, to, eps).unwrap()
        }),
{
    reveal(rdp_chain);
}

/// A chord that is a constraint edge, or that no vertex of its arc is far from, is
/// its own chain.
pub proof fn lemma_chain_whole(mesh: &Mesh, from: int, to: int, eps: nat)
    requires
        0 <= from < mesh.n(),
        0 <= to < mesh.n(),
        mesh.is_constraint(from, to) || all_within(mesh, from, to, eps),
    ensures
        rdp_chain(mesh, from, to, eps) == Ok::<Seq<usize>, SimplifyError>(chord(from, to)),
{
    reveal(rdp_chain);
}

proof fn lemma_offset_of_ends(a: Point, b: Point)
    ensures
        offset(a, b, a) == 0,
        offset(a, b, b) == 0,
{
    assert((b.x - a.x) * (b.y - a.y) - (b.y - a.y) * (b.x - a.x) == 0) by (nonlinear_arith);
    assert((b.x - a.x) * (a.y - a.y) - (b.y - a.y) * (a.x - a.x) == 0) by (nonlinear_arith);
}

proof fn lemma_within_monotone(small: nat, large: nat, len_2: nat, eps: nat)
    requires
        small <= large,
        offset_within(large, len_2, eps),
    ensures
        offset_within(small, len_2, eps),
{
    assert(small * small <= large * large) by (nonlinear_arith)
        requires
            small <= large,
    ;
}

/// Whether every vertex on the arc from `from` to `to` lies within `eps` of the
/// chord.
fn arc_within(mesh: &Mesh, from: usize, to: usize, eps: u32) -> (r: bool)
    requires
        mesh.wf(),
        from < mesh.n(),
        to < mesh.n(),
    ensures
        r == all_within(mesh, from as int, to as int, eps as nat),
{
    let n: usize = mesh.num_vertices();
    let a = mesh.position(from);
    let b = mesh.position(to);
    let len: usize = if from <= to {
        to - from
    } else {
        to + (n - from)
    };
    let mut farthest: u128 = 0;
    let ghost mut at: int = from as int;
    let mut cur: usize = from;
    let mut steps: usize = 0;
    proof {
        lemma_offset_of_ends(a, b);
    }
    while steps < len
        invariant
            mesh.wf(),
            n == mesh.n(),
            from < n,
            to < n,
            a == mesh.points@[from as int],
            b == mesh.points@[to as int],
            len == span_len(from as int, to as int, n as int),
            steps <= len,
            cur < n,
            span_len(from as int, cur as int, n as int) == steps,
            0 <= at < n,
            in_span(from as int, to as int, at),
            farthest == offset(a, b, mesh.points@[at]),
            farthest <= 0x8000_0000_0000_0000,
            forall|v: int|
                0 <= v < n && span_len(from as int, v, n as int) < steps ==> offset(
                    a,
                    b,
                    #[trigger] mesh.points@[v],
                ) <= farthest,
        decreases len - steps,
    {
        let d = chord_offset(a, b, mesh.position(cur));
        if d > farthest {
            farthest = d;
            proof {
                at = cur as int;
            }
        }
        cur = if cur + 1 == n {
            0
        } else {
            cur + 1
        };
        steps += 1;
    }
    let len_2 = chord_length_2(a, b);
    let r = is_offset_within(farthest, len_2, eps);
    proof {
        if r {
            assert forall|v: int| 0 <= v < mesh.n() && in_span(from as int, to as int, v) implies within(
                a,
                b,
                #[trigger] mesh.points@[v],
                eps as nat,
            ) by {
                if v != to {
                    assert(span_len(from as int, v, n as int) < steps);
                }
                lemma_within_monotone(
                    offset(a, b, mesh.points@[v]),
                    farthest as nat,
                    len_2 as nat,
                    eps as nat,
                );
            }
        } else {
            assert(!within(a, b, mesh.points@[at], eps as nat));
        }
    }
    r
}

/// The vertex at which the chord from `from` to `to` is split.
fn choose_split(mesh: &Mesh, from: usize, to: usize, candidates: &Vec<usize>) -> (split: usize)
    requires
        mesh.wf(),
        from < mesh.n(),
        to < mesh.n(),
        ascending(candidates@),
        below(members(candidates@), mesh.n()),
        members(candidates@) == mutually_visible(mesh, from as int, to as int),
    ensures
        split == split_of(mesh, from as int, to as int),
        split < mesh.n(),
{
    let a = mesh.position(from);
    let b = mesh.position(to);
    let count: usize = candidates.len();
    let mut best: usize = from;
    let mut best_offset: u128 = 0;
    let mut k: usize = 0;
    let ghost seen = mutually_visible(mesh, from as int, to as int);
    while k < count
        invariant
            mesh.wf(),
            count == candidates@.len(),
            k <= count,
            from < mesh.n(),
            to < mesh.n(),
            a.on_grid(),
            b.on_grid(),
            a == mesh.points@[from as int],
            b == mesh.points@[to as int],
            ascending(candidates@),
            below(members(candidates@), mesh.n()),
            best < mesh.n(),
            k == 0 ==> best == from,
            k > 0 ==> {
                &&& best_offset == offset(a, b, mesh.points@[best as int])
                &&& exists|i: int| 0 <= i < k && candidates@[i] == best
                &&& forall|j: int|
                    0 <= j < k ==> offset(a, b, mesh.points@[(#[trigger] candidates@[j]) as int])
                        <= best_offset
                &&& forall|j: int|
                    0 <= j < k && offset(a, b, mesh.points@[(#[trigger] candidates@[j]) as int])
                        == best_offset ==> best <= candidates@[j]
            },
        decreases count - k,
    {
        let v: usize = candidates[k];
        assert(candidates@.contains(v));
        assert(members(candidates@).contains(v));
        let d = chord_offset(a, b, mesh.position(v));
        if k == 0 || d > best_offset {
            best = v;
            best_offset = d;
        } else {
            proof {
                let i = choose|i: int| 0 <= i < k && candidates@[i] == best;
                assert(candidates@[i] < candidates@[k as int]);
            }
        }
        k += 1;
    }
    proof {
        if count == 0 {
            assert forall|v: usize| !is_split(mesh, from as int, to as int, v) by {
                if seen.contains(v) {
                    assert(candidates@.contains(v));
                }
            }
        } else {
            assert(candidates@.contains(best));
            assert(seen.contains(best));
            assert forall|w: usize| #[trigger] seen.contains(w) implies offset(
                a,
                b,
                mesh.points@[w as int],
            ) <= offset(a, b, mesh.points@[best as int]) && (offset(a, b, mesh.points@[w as int])
                == offset(a, b, mesh.points@[best as int]) ==> best <= w) by {
                assert(candidates@.contains(w));
                let j = choose|j: int| 0 <= j < candidates@.len() && candidates@[j] == w;
                assert(candidates@[j] == w);
            }
            assert(is_split(mesh, from as int, to as int, best));
            let other = choose|v: usize| is_split(mesh, from as int, to as int, v);
            assert(seen.contains(other));
            assert(other == best);
        }
    }
    best
}

/// The vertices kept on the arc from `from` to `to`, the two ends included, in the
/// order of the ring.
pub fn rdp_preserve(from: usize, to: usize, mesh: &Mesh, eps: u32) -> (r: Result<
    Vec<usize>,
    SimplifyError,
>)
    requires
        mesh.wf(),
        mesh.n() >= 3,
        from < mesh.n(),
        to < mesh.n(),
    ensures
        match r {
            Ok(chain) => {
                &&& rdp_chain(mesh, from as int, to as int, eps as nat) == Ok::<
                    Seq<usize>,
                    SimplifyError,
                >(chain@)
                &&& chain@.len() >= 2
                &&& chain@[0] == from
                &&& chain@[chain@.len() - 1] == to
            },
            Err(e) => rdp_chain(mesh, from as int, to as int, eps as nat) == Err::<
                Seq<usize>,
                SimplifyError,
            >(e),
        },
    decreases span_len(from as int, to as int, mesh.n()),
{
    reveal(rdp_chain);
    if mesh.exists_constraint(from, to) || arc_within(mesh, from, to, eps) {
        let mut chain: Vec<usize> = Vec::new();
        chain.push(from);
        chain.push(to);
        assert(chain@ =~= chord(from as int, to as int));
        return Ok(chain);
    }
    let candidates = match visibility_intersection(from, to, mesh) {
        Some(c) => c,
        None => {
            return Err(SimplifyError::WalkCutOff);
        },
    };
    let split = choose_split(mesh, from, to, &candidates);
    if split == from || split == to {
        return Err(SimplifyError::SplitAtEndpoint);
    }
    proof {
        assert(is_split(mesh, from as int, to as int, split)) by {
            if !(exists|v: usize| is_split(mesh, from as int, to as int, v)) {
                assert(split == from);
            }
        }
        assert(mutually_visible(mesh, from as int, to as int).contains(split));
        assert(in_span(from as int, to as int, split as int));
    }
    let mut left = match rdp_preserve(from, split, mesh, eps) {
        Ok(l) => l,
        Err(e) => {
            return Err(e);
        },
    };
    let mut right = match rdp_preserve(split, to, mesh, eps) {
        Ok(r) => r,
        Err(e) => {
            return Err(e);
        },
    };
    let ghost left_all = left@;
    let ghost right_all = right@;
    left.pop();
    left.append(&mut right);
    assert(left@ =~= left_all.drop_last() + right_all);
    Ok(left)
}

/// The chains of the first `k` hull edges, each reduced from the start of its edge
/// to the end of it; the first failure, if one of them fails.
pub open spec fn hull_chains(mesh: &Mesh, eps: nat, k: nat) -> Result<
    Seq<Seq<usize>>,
    SimplifyError,
>
    decreases k,
{
    if k == 0 {
        Ok(Seq::empty())
    } else {
        match hull_chains(mesh, eps, (k - 1) as nat) {
            Err(e) => Err(e),
            Ok(chains) => {
                let h = mesh.edges@[mesh.hull@[k - 1] as int];
                match rdp_chain(mesh, h.from as int, h.to as int, eps) {
                    Err(e) => Err(e),
                    Ok(chain) => Ok(chains.push(chain)),
                }
            },
        }
    }
}

/// All vertices of a ring of `n`, in order.
pub open spec fn whole_ring(n: nat) -> Seq<usize> {
    Seq::new(n, |i: int| i as usize)
}

/// The vertices of the reduced ring: the chains of all hull edges joined in the
/// order of the hull, so that the ring closes on the vertex it began with. A ring of
/// fewer than three vertices is kept as it is.
pub open spec fn reduced_ring(mesh: &Mesh, eps: nat) -> Result<Seq<usize>, SimplifyError> {
    if mesh.n() < 3 {
        Ok(whole_ring(mesh.n() as nat))
    } else {
        match hull_chains(mesh, eps, mesh.hull@.len()) {
            Err(e) => Err(e),
            Ok(chains) => Ok(joined(chains)),
        }
    }
}

/// The positions of the vertices `indices`.
pub open spec fn positions(mesh: &Mesh, indices: Seq<usize>) -> Seq<Point> {
    Seq::new(indices.len(), |i: int| mesh.points@[indices[i] as int])
}

/// All of `indices` are vertices of a ring of `n`.
pub open spec fn all_below(indices: Seq<usize>, n: int) -> bool {
    forall|i: int| 0 <= i < indices.len() ==> (#[trigger] indices[i]) < n
}

proof fn lemma_chain_below(mesh: &Mesh, from: int, to: int, eps: nat)
    requires
        mesh.wf(),
        0 <= from < mesh.n(),
        0 <= to < mesh.n(),
        rdp_chain(mesh, from, to, eps).is_ok(),
    ensures
        all_below(rdp_chain(mesh, from, to, eps).unwrap(), mesh.n()),
    decreases span_len(from, to, mesh.n()),
{
    if mesh.is_constraint(from, to) || all_within(mesh, from, to, eps) {
        lemma_chain_whole(mesh, from, to, eps);
        let chain = chord(from, to);
        assert(mesh.points.len() == mesh.n());
        assert(chain[0] == from && chain[1] == to);
    } else {
        lemma_chain_halves(mesh, from, to, eps);
        let split = split_of(mesh, from, to) as int;
        lemma_chain_chords_within(mesh, from, split, eps);
        lemma_chain_below(mesh, from, split, eps);
        lemma_chain_below(mesh, split, to, eps);
        let left = rdp_chain(mesh, from, split, eps).unwrap();
        let right = rdp_chain(mesh, split, to, eps).unwrap();
        let chain = left.drop_last() + right;
        assert(chain == rdp_chain(mesh, from, to, eps).unwrap());
        assert forall|i: int| 0 <= i < chain.len() implies (#[trigger] chain[i]) < mesh.n() by {
            if i < left.len() - 1 {
                assert(chain[i] == left[i]);
            } else {
                assert(chain[i] == right[i - (left.len() - 1)]);
            }
        }
    }
}

/// The vertices `0`, `1`, ... of a ring of `n`.
pub fn ring_indices(n: usize) -> (r: Vec<usize>)
    ensures
        r@ == whole_ring(n as nat),
{
    let mut out: Vec<usize> = Vec::new();
    let mut i: usize = 0;
    while i < n
        invariant
            i <= n,
            out@ == whole_ring(i as nat),
        decreases n - i,
    {
        out.push(i);
        assert(out@ =~= whole_ring((i + 1) as nat));
        i += 1;
    }
    out
}

/// Looks up the positions of the vertices `indices`.
pub fn collect_positions(mesh: &Mesh, indices: &Vec<usize>) -> (r: Vec<Point>)
    requires
        mesh.wf(),
        all_below(indices@, mesh.n()),
    ensures
        r@ == positions(mesh, indices@),
{
    let mut out: Vec<Point> = Vec::new();
    let mut i: usize = 0;
    while i < indices.len()
        invariant
            mesh.wf(),
            all_below(indices@, mesh.n()),
            i <= indices@.len(),
            out@ == positions(mesh, indices@.take(i as int)),
        decreases indices@.len() - i,
    {
        out.push(mesh.position(indices[i]));
        assert(out@ =~= positions(mesh, indices@.take(i + 1)));
        i += 1;
    }
    assert(indices@.take(indices@.len() as int) =~= indices@);
    out
}

/// Reduces the ring of `mesh` and returns the indices of the vertices that are kept,
/// in the order of the hull walk, the first of them repeated at the end.
pub fn simplify_rdp_indices(mesh: &Mesh, eps: u32) -> (r: Result<Vec<usize>, SimplifyError>)
    requires
        mesh.wf(),
    ensures
        match r {
            Ok(kept) => {
                &&& reduced_ring(mesh, eps as nat) == Ok::<Seq<usize>, SimplifyError>(kept@)
                &&& all_below(kept@, mesh.n())
                &&& mesh.n() >= 3 && hull_follows_ring(mesh) ==> goes_forward(
                    kept@,
                    hull_from(mesh, 0),
                    mesh.n(),
                    mesh.n(),
                ) && chords_stand(mesh, kept@, eps as nat)
                &&& mesh.n() >= 3 && hull_is_ring(mesh) ==> kept@.len() == mesh.n() + 1
            },
            Err(e) => reduced_ring(mesh, eps as nat) == Err::<Seq<usize>, SimplifyError>(e),
        },
        mesh.n() < 3 || hull_is_ring(mesh) ==> r.is_ok(),
{
    let n: usize = mesh.num_vertices();
    if n < 3 {
        let all = ring_indices(n);
        assert forall|i: int| 0 <= i < all@.len() implies (#[trigger] all@[i]) < mesh.n() by {}
        return Ok(all);
    }
    let mut chains: Vec<Vec<usize>> = Vec::new();
    let count: usize = mesh.hull.len();
    let mut k: usize = 0;
    assert(views(chains@) =~= Seq::<Seq<usize>>::empty());
    while k < count
        invariant
            mesh.wf(),
            mesh.n() >= 3,
            count == mesh.hull@.len(),
            k <= count,
            hull_chains(mesh, eps as nat, k as nat) == Ok::<Seq<Seq<usize>>, SimplifyError>(
                views(chains@),
            ),
            forall|j: int| 0 <= j < chains@.len() ==> all_below(#[trigger] chains@[j]@, mesh.n()),
        decreases count - k,
    {
        let h = mesh.edge(mesh.hull[k]);
        match rdp_preserve(h.from, h.to, mesh, eps) {
            Err(e) => {
                proof {
                    lemma_hull_chains_fail(mesh, eps as nat, (k + 1) as nat, count as nat);
                    if hull_is_ring(mesh) {
                        lemma_convex_ring_is_kept(mesh, eps as nat);
                    }
                }
                return Err(e);
            },
            Ok(chain) => {
                proof {
                    lemma_chain_below(mesh, h.from as int, h.to as int, eps as nat);
                    assert(views(chains@.push(chain)) =~= views(chains@).push(chain@));
                }
                chains.push(chain);
            },
        }
        k += 1;
    }
    let kept = join_segments(&chains);
    proof {
        lemma_joined_below(views(chains@), mesh.n());
        if hull_follows_ring(mesh) {
            lemma_reduced_ring_in_order(mesh, eps as nat);
            lemma_reduced_ring_within(mesh, eps as nat);
        }
        if hull_is_ring(mesh) {
            lemma_convex_ring_is_kept(mesh, eps as nat);
        }
    }
    Ok(kept)
}

proof fn lemma_hull_chains_fail(mesh: &Mesh, eps: nat, k: nat, total: nat)
    requires
        k <= total,
        hull_chains(mesh, eps, k).is_err(),
    ensures
        hull_chains(mesh, eps, total) == hull_chains(mesh, eps, k),
    decreases total - k,
{
    if k < total {
        lemma_hull_chains_fail(mesh, eps, k + 1, total);
    }
}

proof fn lemma_joined_below(pieces: Seq<Seq<usize>>, n: int)
    requires
        forall|j: int| 0 <= j < pieces.len() ==> all_below(#[trigger] pieces[j], n),
    ensures
        all_below(joined(pieces), n),
    decreases pieces.len(),
{
    if pieces.len() == 1 {
        assert(all_below(pieces[0], n));
    } else if pieces.len() > 1 {
        let head = pieces.drop_last();
        assert forall|j: int| 0 <= j < head.len() implies all_below(#[trigger] head[j], n) by {
            assert(head[j] == pieces[j]);
        }
        lemma_joined_below(head, n);
        assert(all_below(pieces[pieces.len() - 1], n));
    }
}

/// Reduces the ring of `mesh` and returns the positions of the vertices that are
/// kept.
pub fn simplify_visibility_rdp(mesh: &Mesh, eps: u32) -> (r: Result<
    LineString<Point>,
    SimplifyError,
>)
    requires
        mesh.wf(),
    ensures
        match r {
            Ok(ring) => reduced_ring(mesh, eps as nat).is_ok() && ring@ == positions(
                mesh,
                reduced_ring(mesh, eps as nat).unwrap(),
            ),
            Err(e) => reduced_ring(mesh, eps as nat) == Err::<Seq<usize>, SimplifyError>(e),
        },
{
    match simplify_rdp_indices(mesh, eps) {
        Ok(kept) => Ok(LineString { items: collect_positions(mesh, &kept) }),
        Err(e) => Err(e),
    }
}

/// Reduction of a ring by the farthest-point rule.
pub trait SimplifyRDP: Sized {
    /// The value can be reduced.
    spec fn reducible(&self) -> bool;

    /// The positions of the reduced ring.
    spec fn rdp_reduced(&self, eps: nat) -> Result<Seq<Point>, SimplifyError>;

    /// Reduces the ring: no vertex that is left out lies farther than `eps` from the
    /// chord that replaces it.
    fn simplify_rdp(&self, eps: u32) -> (r: Result<LineString<Point>, SimplifyError>)
        requires
            self.reducible(),
        ensures
            match r {
                Ok(ring) => self.rdp_reduced(eps as nat) == Ok::<Seq<Point>, SimplifyError>(ring@),
                Err(e) => self.rdp_reduced(eps as nat) == Err::<Seq<Point>, SimplifyError>(e),
            },
    ;
}

impl SimplifyRDP for Mesh {
    open spec fn reducible(&self) -> bool {
        self.wf()
    }

    open spec fn rdp_reduced(&self, eps: nat) -> Result<Seq<Point>, SimplifyError> {
        match reduced_ring(self, eps) {
            Ok(kept) => Ok(positions(self, kept)),
            Err(e) => Err(e),
        }
    }

    fn simplify_rdp(&self, eps: u32) -> (r: Result<LineString<Point>, SimplifyError>) {
        simplify_visibility_rdp(self, eps)
    }
}

} // verus!
