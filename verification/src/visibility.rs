//! Which vertices of a triangulation a vertex can see without looking across the
//! boundary ring.
use crate::geometry::{orient2d, orientation, Orientation, Point};
use crate::index_set::{ascending, members, IndexSet};
use crate::mesh::Mesh;
use vstd::prelude::*;

verus! {

/// Every member of `s` is smaller than `n`.
pub open spec fn below(s: Set<usize>, n: int) -> bool {
    forall|w: usize| s.contains(w) ==> w < n
}

/// Vertex `v` lies in the window that `left` and `right` open as seen from `source`:
/// not to the left of the ray through `left`, not to the right of the one through
/// `right`.
pub open spec fn in_window(mesh: &Mesh, source: Point, left: int, right: int, v: int) -> bool {
    &&& orientation(source, mesh.points@[left], mesh.points@[v]) != Orientation::CounterClockwise
    &&& orientation(source, mesh.points@[right], mesh.points@[v]) != Orientation::Clockwise
}

/// The left bound of the window behind an edge that ends at `far`: the old bound
/// where it is the tighter one.
pub open spec fn narrow_left(mesh: &Mesh, source: Point, left: int, far: int) -> int {
    if orientation(source, mesh.points@[left], mesh.points@[far]) == Orientation::CounterClockwise {
        left
    } else {
        far
    }
}

/// The right bound of the window behind an edge that starts at `far`.
pub open spec fn narrow_right(mesh: &Mesh, source: Point, right: int, far: int) -> int {
    if orientation(source, mesh.points@[right], mesh.points@[far]) == Orientation::Clockwise {
        right
    } else {
        far
    }
}

/// The window has closed: its bounds have changed sides.
pub open spec fn inverted(mesh: &Mesh, source: Point, left: int, right: int) -> bool {
    orientation(source, mesh.points@[left], mesh.points@[right]) == Orientation::CounterClockwise
}

/// The vertices seen from `source` through `edge` within the window `left`,
/// `right`, by a walk that crosses at most `depth` edges. Constraint edges and outer
/// edges are opaque.
pub open spec fn seen_through(
    mesh: &Mesh,
    source: Point,
    edge: int,
    left: int,
    right: int,
    depth: nat,
) -> Set<usize>
    decreases depth, 0nat,
{
    let h = mesh.edges@[edge];
    if h.constraint || h.outer || depth == 0 {
        Set::empty()
    } else {
        let apex = h.apex.unwrap();
        let first = if in_window(mesh, source, left, right, apex as int) {
            Set::<usize>::empty().insert(apex)
        } else {
            Set::<usize>::empty()
        };
        first.union(seen_past(mesh, source, h.prev as int, left, right, (depth - 1) as nat)).union(
            seen_past(mesh, source, h.next as int, left, right, (depth - 1) as nat),
        )
    }
}

/// The vertices seen beyond the edge `side` of the face just entered: the window is
/// narrowed to that edge, and the walk goes on through its reverse unless the window
/// has closed.
pub open spec fn seen_past(
    mesh: &Mesh,
    source: Point,
    side: int,
    left: int,
    right: int,
    depth: nat,
) -> Set<usize>
    decreases depth, 1nat,
{
    let s = mesh.edges@[side];
    let new_left = narrow_left(mesh, source, left, s.to as int);
    let new_right = narrow_right(mesh, source, right, s.from as int);
    if inverted(mesh, source, new_left, new_right) {
        Set::empty()
    } else {
        seen_through(mesh, source, s.rev as int, new_left, new_right, depth)
    }
}

/// The walk of [`seen_through`] ends within `depth` crossings, so nothing was cut off.
pub open spec fn walk_ends(
    mesh: &Mesh,
    source: Point,
    edge: int,
    left: int,
    right: int,
    depth: nat,
) -> bool
    decreases depth, 0nat,
{
    let h = mesh.edges@[edge];
    if h.constraint || h.outer {
        true
    } else if depth == 0 {
        false
    } else {
        walk_ends_past(mesh, source, h.prev as int, left, right, (depth - 1) as nat)
            && walk_ends_past(mesh, source, h.next as int, left, right, (depth - 1) as nat)
    }
}

/// The walk of [`seen_past`] ends within `depth` crossings.
pub open spec fn walk_ends_past(
    mesh: &Mesh,
    source: Point,
    side: int,
    left: int,
    right: int,
    depth: nat,
) -> bool
    decreases depth, 1nat,
{
    let s = mesh.edges@[side];
    let new_left = narrow_left(mesh, source, left, s.to as int);
    let new_right = narrow_right(mesh, source, right, s.from as int);
    if inverted(mesh, source, new_left, new_right) {
        true
    } else {
        walk_ends(mesh, source, s.rev as int, new_left, new_right, depth)
    }
}

/// Walks from `edge` into the faces behind it and adds to `visible` every vertex
/// seen from `source` within the window `left`, `right`, crossing at most `depth`
/// edges on any path. Returns whether the walk ended by itself.
pub fn visit_edge_within(
    mesh: &Mesh,
    source: Point,
    edge: usize,
    left: usize,
    right: usize,
    visible: &mut IndexSet,
    depth: usize,
) -> (ended: bool)
    requires
        mesh.wf(),
        source.on_grid(),
        edge < mesh.edges@.len(),
        left < mesh.n(),
        right < mesh.n(),
        old(visible).wf(),
        below(old(visible)@, mesh.n()),
    ensures
        final(visible).wf(),
        below(final(visible)@, mesh.n()),
        final(visible)@ == old(visible)@.union(
            seen_through(mesh, source, edge as int, left as int, right as int, depth as nat),
        ),
        ended == walk_ends(mesh, source, edge as int, left as int, right as int, depth as nat),
    decreases depth, 0nat,
{
    let h = mesh.edge(edge);
    if h.constraint || h.outer {
        assert(visible@.union(Set::<usize>::empty()) =~= visible@);
        return true;
    }
    if depth == 0 {
        assert(visible@.union(Set::<usize>::empty()) =~= visible@);
        return false;
    }
    let apex = h.apex.unwrap();
    let p = mesh.position(apex);
    let to_left = orient2d(source, mesh.position(left), p);
    let to_right = orient2d(source, mesh.position(right), p);
    if to_left != Orientation::CounterClockwise && to_right != Orientation::Clockwise {
        visible.insert(apex);
    }
    let ghost first = visible@;
    let ended_prev = visit_past(mesh, source, h.prev, left, right, visible, depth - 1);
    let ended_next = visit_past(mesh, source, h.next, left, right, visible, depth - 1);
    proof {
        let d = (depth - 1) as nat;
        let a = seen_past(mesh, source, h.prev as int, left as int, right as int, d);
        let b = seen_past(mesh, source, h.next as int, left as int, right as int, d);
        let own = if in_window(mesh, source, left as int, right as int, apex as int) {
            Set::<usize>::empty().insert(apex)
        } else {
            Set::<usize>::empty()
        };
        assert(first =~= old(visible)@.union(own));
        assert(visible@ =~= old(visible)@.union(own.union(a).union(b)));
    }
    ended_prev && ended_next
}

/// Narrows the window to the edge `side` and, unless it has closed, walks on through
/// the reverse of that edge.
fn visit_past(
    mesh: &Mesh,
    source: Point,
    side: usize,
    left: usize,
    right: usize,
    visible: &mut IndexSet,
    depth: usize,
) -> (ended: bool)
    requires
        mesh.wf(),
        source.on_grid(),
        side < mesh.edges@.len(),
        left < mesh.n(),
        right < mesh.n(),
        old(visible).wf(),
        below(old(visible)@, mesh.n()),
    ensures
        final(visible).wf(),
        below(final(visible)@, mesh.n()),
        final(visible)@ == old(visible)@.union(
            seen_past(mesh, source, side as int, left as int, right as int, depth as nat),
        ),
        ended == walk_ends_past(
            mesh,
            source,
            side as int,
            left as int,
            right as int,
            depth as nat,
        ),
    decreases depth, 1nat,
{
    let s = mesh.edge(side);
    let new_left = if orient2d(source, mesh.position(left), mesh.position(s.to))
        == Orientation::CounterClockwise {
        left
    } else {
        s.to
    };
    let new_right = if orient2d(source, mesh.position(right), mesh.position(s.from))
        == Orientation::Clockwise {
        right
    } else {
        s.from
    };
    if orient2d(source, mesh.position(new_left), mesh.position(new_right))
        == Orientation::CounterClockwise {
        assert(visible@.union(Set::<usize>::empty()) =~= visible@);
        return true;
    }
    visit_edge_within(mesh, source, s.rev, new_left, new_right, visible, depth)
}

/// Walks from `edge` into the faces behind it and adds to `visible` every vertex
/// seen from `source` within the window `left`, `right`. No path of the walk crosses
/// more edges than the mesh has; the result says whether the walk ended by itself.
pub fn visit_edge(
    mesh: &Mesh,
    source: Point,
    edge: usize,
    left: usize,
    right: usize,
    visible: &mut IndexSet,
) -> (ended: bool)
    requires
        mesh.wf(),
        source.on_grid(),
        edge < mesh.edges@.len(),
        left < mesh.n(),
        right < mesh.n(),
        old(visible).wf(),
        below(old(visible)@, mesh.n()),
    ensures
        final(visible).wf(),
        below(final(visible)@, mesh.n()),
        final(visible)@ == old(visible)@.union(
            seen_through(
                mesh,
                source,
                edge as int,
                left as int,
                right as int,
                mesh.edges@.len(),
            ),
        ),
        ended == walk_ends(
            mesh,
            source,
            edge as int,
            left as int,
            right as int,
            mesh.edges@.len(),
        ),
{
    visit_edge_within(mesh, source, edge, left, right, visible, mesh.num_directed_edges())
}

/// The edge that opens the window at one step of the turn around a vertex.
pub open spec fn fan_window(mesh: &Mesh, cur: int, direction: Orientation) -> int {
    let h = mesh.edges@[cur];
    if direction == Orientation::CounterClockwise {
        mesh.edges@[h.next as int].rev as int
    } else {
        mesh.edges@[h.prev as int].rev as int
    }
}

/// The edge at which the turn around a vertex goes on.
pub open spec fn fan_next(mesh: &Mesh, cur: int, direction: Orientation) -> int {
    let h = mesh.edges@[cur];
    if direction == Orientation::CounterClockwise {
        mesh.edges@[h.prev as int].rev as int
    } else {
        mesh.edges@[h.next as int].rev as int
    }
}

/// The vertices seen from `source` while turning around it from the edge `cur` on,
/// face by face in the given direction, for at most `steps` faces: the apex of each
/// face and what is seen through the edge opposite `source`. The turn stops at a
/// constraint edge and where there is no face.
pub open spec fn seen_around(
    mesh: &Mesh,
    source: Point,
    cur: int,
    direction: Orientation,
    steps: nat,
) -> Set<usize>
    decreases steps,
{
    match mesh.edges@[cur].apex {
        None => Set::empty(),
        Some(apex) => if steps == 0 {
            Set::empty()
        } else {
            let w = fan_window(mesh, cur, direction);
            let next = fan_next(mesh, cur, direction);
            let here = Set::<usize>::empty().insert(apex).union(
                seen_through(
                    mesh,
                    source,
                    w,
                    mesh.edges@[w].from as int,
                    mesh.edges@[w].to as int,
                    mesh.edges@.len(),
                ),
            );
            if mesh.edges@[next].constraint {
                here
            } else {
                here.union(seen_around(mesh, source, next, direction, (steps - 1) as nat))
            }
        },
    }
}

/// The turn of [`seen_around`] and every walk it starts end by themselves.
pub open spec fn turn_ends(
    mesh: &Mesh,
    source: Point,
    cur: int,
    direction: Orientation,
    steps: nat,
) -> bool
    decreases steps,
{
    match mesh.edges@[cur].apex {
        None => true,
        Some(apex) => if steps == 0 {
            false
        } else {
            let w = fan_window(mesh, cur, direction);
            let next = fan_next(mesh, cur, direction);
            &&& walk_ends(
                mesh,
                source,
                w,
                mesh.edges@[w].from as int,
                mesh.edges@[w].to as int,
                mesh.edges@.len(),
            )
            &&& (mesh.edges@[next].constraint || turn_ends(
                mesh,
                source,
                next,
                direction,
                (steps - 1) as nat,
            ))
        },
    }
}

/// The edge at which the turn around the start of `edge` begins.
pub open spec fn fan_start(mesh: &Mesh, edge: int, direction: Orientation) -> int {
    if direction == Orientation::Clockwise {
        mesh.edges@[edge].rev as int
    } else {
        edge
    }
}

/// The two ends of an edge.
pub open spec fn ends_of(mesh: &Mesh, edge: int) -> Set<usize> {
    Set::<usize>::empty().insert(mesh.edges@[edge].from).insert(mesh.edges@[edge].to)
}

/// Everything the start of `edge` sees when it turns from `edge` in the given
/// direction as far as the next constraint edge: the two ends of `edge` included.
pub open spec fn visible_from(mesh: &Mesh, edge: int, direction: Orientation) -> Set<usize> {
    let h = mesh.edges@[edge];
    if h.outer && h.constraint {
        ends_of(mesh, edge)
    } else {
        ends_of(mesh, edge).union(
            seen_around(
                mesh,
                mesh.points@[h.from as int],
                fan_start(mesh, edge, direction),
                direction,
                mesh.edges@.len(),
            ),
        )
    }
}

/// The turn and the walks behind [`visible_from`] end by themselves.
pub open spec fn sight_ends(mesh: &Mesh, edge: int, direction: Orientation) -> bool {
    let h = mesh.edges@[edge];
    (h.outer && h.constraint) || turn_ends(
        mesh,
        mesh.points@[h.from as int],
        fan_start(mesh, edge, direction),
        direction,
        mesh.edges@.len(),
    )
}

/// Collects what the start of `edge` sees when it turns in `direction` from `edge` as
/// far as the next constraint edge. The flag says whether the turn and all walks
/// ended by themselves.
pub fn visibility_vertex(mesh: &Mesh, edge: usize, direction: Orientation) -> (r: (
    IndexSet,
    bool,
))
    requires
        mesh.wf(),
        edge < mesh.edges@.len(),
        direction != Orientation::Collinear,
    ensures
        r.0.wf(),
        below(r.0@, mesh.n()),
        r.0@ == visible_from(mesh, edge as int, direction),
        r.1 == sight_ends(mesh, edge as int, direction),
{
    let h = mesh.edge(edge);
    let mut visible = IndexSet::new();
    visible.insert(h.from);
    visible.insert(h.to);
    assert(visible@ =~= ends_of(mesh, edge as int));
    if h.outer && h.constraint {
        return (visible, true);
    }
    let source = mesh.position(h.from);
    let m: usize = mesh.num_directed_edges();
    let start: usize = match direction {
        Orientation::Clockwise => h.rev,
        _ => edge,
    };
    let mut cur: usize = start;
    let mut steps: usize = m;
    let mut ended = true;
    let mut done = false;
    while !done
        invariant
            mesh.wf(),
            source.on_grid(),
            source == mesh.points@[h.from as int],
            m == mesh.edges@.len(),
            cur < m,
            direction != Orientation::Collinear,
            visible.wf(),
            below(visible@, mesh.n()),
            visible@.union(
                if done {
                    Set::<usize>::empty()
                } else {
                    seen_around(mesh, source, cur as int, direction, steps as nat)
                },
            ) == ends_of(mesh, edge as int).union(
                seen_around(mesh, source, start as int, direction, m as nat),
            ),
            (ended && (done || turn_ends(mesh, source, cur as int, direction, steps as nat)))
                == turn_ends(mesh, source, start as int, direction, m as nat),
        decreases steps + (if done { 0int } else { 1int }),
    {
        let c = mesh.edge(cur);
        let ghost before = visible@;
        let ghost rest = seen_around(mesh, source, cur as int, direction, steps as nat);
        match c.apex {
            None => {
                done = true;
                assert(before.union(Set::<usize>::empty()) =~= before.union(rest));
            },
            Some(apex) => {
                if steps == 0 {
                    ended = false;
                    done = true;
                    assert(before.union(Set::<usize>::empty()) =~= before.union(rest));
                } else {
                    visible.insert(apex);
                    let window: usize = match direction {
                        Orientation::CounterClockwise => mesh.edge(c.next).rev,
                        _ => mesh.edge(c.prev).rev,
                    };
                    let w = mesh.edge(window);
                    let walked = visit_edge(mesh, source, window, w.from, w.to, &mut visible);
                    ended = ended && walked;
                    let next: usize = match direction {
                        Orientation::CounterClockwise => mesh.edge(c.prev).rev,
                        _ => mesh.edge(c.next).rev,
                    };
                    assert(window == fan_window(mesh, cur as int, direction));
                    assert(next == fan_next(mesh, cur as int, direction));
                    cur = next;
                    steps = steps - 1;
                    if mesh.edge(cur).constraint {
                        done = true;
                    }
                    proof {
                        let here = Set::<usize>::empty().insert(apex).union(
                            seen_through(
                                mesh,
                                source,
                                window as int,
                                w.from as int,
                                w.to as int,
                                m as nat,
                            ),
                        );
                        assert(visible@ =~= before.union(here));
                        if done {
                            assert(rest == here);
                            assert(visible@.union(Set::<usize>::empty()) =~= before.union(rest));
                        } else {
                            let more = seen_around(
                                mesh,
                                source,
                                cur as int,
                                direction,
                                steps as nat,
                            );
                            assert(rest == here.union(more));
                            assert(visible@.union(more) =~= before.union(rest));
                        }
                    }
                }
            },
        }
    }
    assert(visible@.union(Set::<usize>::empty()) =~= visible@);
    (visible, ended)
}

/// The members that two sets share, found by taking the larger of the two largest
/// members away until one of the sets is used up.
pub fn binary_heap_intersection(x: IndexSet, y: IndexSet) -> (r: IndexSet)
    requires
        x.wf(),
        y.wf(),
    ensures
        r.wf(),
        r@ == x@.intersect(y@),
{
    let mut xs = x;
    let mut ys = y;
    let mut intersection = IndexSet::new();
    let mut other: usize = match ys.pop_max() {
        Some(o) => o,
        None => {
            assert(intersection@ =~= x@.intersect(y@));
            return intersection;
        },
    };
    loop
        invariant
            xs.wf(),
            ys.wf(),
            intersection.wf(),
            forall|w: usize| ys@.contains(w) ==> w < other,
            intersection@.union(xs@.intersect(ys@.insert(other))) == x@.intersect(y@),
        decreases xs.items@.len(),
    {
        let ghost found = intersection@;
        let ghost x_before = xs@;
        let ghost y_start = ys@.insert(other);
        let item: usize = match xs.pop_max() {
            Some(i) => i,
            None => {
                assert(found =~= found.union(x_before.intersect(y_start)));
                return intersection;
            },
        };
        while item < other
            invariant
                xs.wf(),
                ys.wf(),
                intersection.wf(),
                intersection@ == found,
                x_before.contains(item),
                xs@ == x_before.remove(item),
                found.union(x_before.intersect(y_start)) == x@.intersect(y@),
                forall|w: usize| ys@.contains(w) ==> w < other,
                forall|w: usize| x_before.contains(w) ==> w <= item,
                x_before.intersect(ys@.insert(other)) == x_before.intersect(y_start),
            decreases ys.items@.len(),
        {
            let ghost y_prev = ys@.insert(other);
            other = match ys.pop_max() {
                Some(o) => o,
                None => {
                    assert(x_before.intersect(y_prev) =~= Set::<usize>::empty());
                    assert(found =~= found.union(x_before.intersect(y_start)));
                    return intersection;
                },
            };
            assert(x_before.intersect(ys@.insert(other)) =~= x_before.intersect(y_prev));
        }
        if item == other {
            intersection.insert(item);
        }
        assert(intersection@.union(xs@.intersect(ys@.insert(other))) =~= found.union(
            x_before.intersect(ys@.insert(other)),
        ));
    }
}

/// Position `v` lies on the arc of the ring that runs from `from` forward to `to`,
/// both ends included.
pub open spec fn in_span(from: int, to: int, v: int) -> bool {
    if from <= to {
        from <= v <= to
    } else {
        v <= to || v >= from
    }
}

/// Keeps the members of an ascending list that lie on the arc from `from` to `to`.
pub fn retain_span(items: &Vec<usize>, from: usize, to: usize) -> (r: Vec<usize>)
    requires
        ascending(items@),
    ensures
        ascending(r@),
        members(r@) == members(items@).filter(|v: usize| in_span(from as int, to as int, v as int)),
{
    let mut out: Vec<usize> = Vec::new();
    let n: usize = items.len();
    let mut k: usize = 0;
    while k < n
        invariant
            n == items@.len(),
            k <= n,
            ascending(items@),
            ascending(out@),
            forall|i: int| 0 <= i < out@.len() ==> k > 0 && #[trigger] out@[i] <= items@[k - 1],
            forall|v: usize|
                out@.contains(v) <==> (exists|j: int|
                    0 <= j < k && items@[j] == v && in_span(from as int, to as int, v as int)),
        decreases n - k,
    {
        let v: usize = items[k];
        let keep = if from <= to {
            from <= v && v <= to
        } else {
            v <= to || v >= from
        };
        let ghost before = out@;
        if keep {
            out.push(v);
            assert forall|i: int, j: int| 0 <= i < j < out@.len() implies out@[i] < out@[j] by {
                if j == out@.len() - 1 {
                    assert(out@[i] == before[i]);
                    assert(before[i] <= items@[k - 1]);
                    assert(items@[k - 1] < items@[k as int]);
                } else {
                    assert(out@[i] == before[i] && out@[j] == before[j]);
                }
            }
        }
        assert forall|w: usize|
            out@.contains(w) <==> (exists|j: int|
                0 <= j < k + 1 && items@[j] == w && in_span(from as int, to as int, w as int)) by {
            if out@.contains(w) {
                let i = choose|i: int| 0 <= i < out@.len() && out@[i] == w;
                if i < before.len() {
                    assert(before[i] == w);
                    assert(before.contains(w));
                } else {
                    assert(items@[k as int] == w);
                }
            }
            if exists|j: int|
                0 <= j < k + 1 && items@[j] == w && in_span(from as int, to as int, w as int) {
                let j = choose|j: int|
                    0 <= j < k + 1 && items@[j] == w && in_span(from as int, to as int, w as int);
                if j < k {
                    assert(before.contains(w));
                    let i = choose|i: int| 0 <= i < before.len() && before[i] == w;
                    assert(out@[i] == w);
                } else {
                    assert(out@[out@.len() - 1] == w);
                }
            }
        }
        assert forall|i: int| 0 <= i < out@.len() implies #[trigger] out@[i] <= items@[k as int] by {
            if i < before.len() {
                assert(out@[i] == before[i]);
                assert(before[i] <= items@[k - 1]);
                assert(items@[k - 1] < items@[k as int]);
            }
        }
        k += 1;
    }
    assert(members(out@) =~= members(items@).filter(
        |v: usize| in_span(from as int, to as int, v as int),
    )) by {
        assert forall|v: usize|
            members(out@).contains(v) <==> members(items@).filter(
                |v: usize| in_span(from as int, to as int, v as int),
            ).contains(v) by {
            if out@.contains(v) {
                let j = choose|j: int|
                    0 <= j < k && items@[j] == v && in_span(from as int, to as int, v as int);
                assert(items@.contains(v));
            }
            if items@.contains(v) && in_span(from as int, to as int, v as int) {
                let j = choose|j: int| 0 <= j < items@.len() && items@[j] == v;
                assert(0 <= j < k && items@[j] == v && in_span(from as int, to as int, v as int));
            }
        }
    }
    out
}

/// The vertices on the arc from `from` to `to` that both ends can see: `from` turning
/// counter-clockwise from its ring edge, `to` turning clockwise from the ring edge
/// that reaches it. Where `from` and `to` are joined by a constraint edge these are
/// the two ends alone.
pub open spec fn mutually_visible(mesh: &Mesh, from: int, to: int) -> Set<usize> {
    if mesh.is_constraint(from, to) {
        Set::<usize>::empty().insert(from as usize).insert(to as usize)
    } else {
        visible_from(
            mesh,
            mesh.ring_out@[from] as int,
            Orientation::CounterClockwise,
        ).intersect(
            visible_from(mesh, mesh.ring_back@[to] as int, Orientation::Clockwise),
        ).filter(|v: usize| in_span(from, to, v as int))
    }
}

/// Both sights behind [`mutually_visible`] end by themselves.
pub open spec fn sights_end(mesh: &Mesh, from: int, to: int) -> bool {
    mesh.is_constraint(from, to) || (sight_ends(
        mesh,
        mesh.ring_out@[from] as int,
        Orientation::CounterClockwise,
    ) && sight_ends(mesh, mesh.ring_back@[to] as int, Orientation::Clockwise))
}

/// The vertices on the arc from `from` to `to` that both ends can see, in ascending
/// order. `None` where a walk through the mesh did not end by itself, which no walk
/// through a planar triangulation does.
pub fn visibility_intersection(from: usize, to: usize, mesh: &Mesh) -> (r: Option<Vec<usize>>)
    requires
        mesh.wf(),
        mesh.n() >= 3,
        from < mesh.n(),
        to < mesh.n(),
    ensures
        r.is_some() <==> sights_end(mesh, from as int, to as int),
        r matches Some(v) ==> ascending(v@) && below(members(v@), mesh.n()) && members(v@)
            == mutually_visible(mesh, from as int, to as int),
{
    if mesh.exists_constraint(from, to) {
        let mut ends = IndexSet::new();
        ends.insert(from);
        ends.insert(to);
        return Some(ends.into_sorted_vec());
    }
    let from_edge: usize = mesh.ring_out[from];
    let to_edge: usize = mesh.ring_back[to];
    let (from_vis, from_ended) = visibility_vertex(mesh, from_edge, Orientation::CounterClockwise);
    let (to_vis, to_ended) = visibility_vertex(mesh, to_edge, Orientation::Clockwise);
    if !(from_ended && to_ended) {
        return None;
    }
    let both = binary_heap_intersection(from_vis, to_vis).into_sorted_vec();
    Some(retain_span(&both, from, to))
}

/// Both ends of a chord are among the vertices that both ends see, wherever the two
/// are joined by a constraint edge or each of them sees the other.
pub proof fn lemma_ends_mutually_visible(mesh: &Mesh, from: int, to: int)
    requires
        mesh.wf(),
        mesh.n() >= 3,
        0 <= from < mesh.n(),
        0 <= to < mesh.n(),
        mesh.is_constraint(from, to) || (visible_from(
            mesh,
            mesh.ring_out@[from] as int,
            Orientation::CounterClockwise,
        ).contains(to as usize) && visible_from(
            mesh,
            mesh.ring_back@[to] as int,
            Orientation::Clockwise,
        ).contains(from as usize)),
    ensures
        mutually_visible(mesh, from, to).contains(from as usize),
        mutually_visible(mesh, from, to).contains(to as usize),
{
    assert(mesh.points.len() == mesh.n());
    if !mesh.is_constraint(from, to) {
        let out = mesh.ring_out@[from] as int;
        let back = mesh.ring_back@[to] as int;
        assert(mesh.edges@[out].from == from);
        assert(mesh.edges@[back].from == to);
        assert(ends_of(mesh, out).contains(from as usize));
        assert(ends_of(mesh, back).contains(to as usize));
        assert(in_span(from, to, from) && in_span(from, to, to));
    }
}

} // verus!
