//! Joining consecutive pieces of a ring.
use vstd::prelude::*;

verus! {

/// The views of a list of vectors.
pub open spec fn views<T>(pieces: Seq<Vec<T>>) -> Seq<Seq<T>> {
    pieces.map_values(|piece: Vec<T>| piece@)
}

/// A piece without its first element.
pub open spec fn rest_of<T>(piece: Seq<T>) -> Seq<T> {
    if piece.len() == 0 {
        piece
    } else {
        piece.subrange(1, piece.len() as int)
    }
}

/// The pieces joined end to end: each piece starts where the one before it ended,
/// so the first piece is taken whole and every later one without its first element.
pub open spec fn joined<T>(pieces: Seq<Seq<T>>) -> Seq<T>
    decreases pieces.len(),
{
    if pieces.len() == 0 {
        Seq::empty()
    } else if pieces.len() == 1 {
        pieces[0]
    } else {
        joined(pieces.drop_last()) + rest_of(pieces.last())
    }
}

/// What can be put together from consecutive pieces.
pub trait FromSegments<T>: Sized + View {
    /// What the pieces make up.
    spec fn assembled(segments: T) -> Self::V;

    /// Joins the pieces end to end.
    fn from_segments(segments: T) -> (r: Self)
        ensures
            r@ == Self::assembled(segments),
    ;
}

/// A ring, or an arc of one, as the list of its vertices.
pub struct LineString<T> {
    pub items: Vec<T>,
}

impl<T> View for LineString<T> {
    type V = Seq<T>;

    open spec fn view(&self) -> Seq<T> {
        self.items@
    }
}

impl<T: Copy> FromSegments<Vec<Vec<T>>> for LineString<T> {
    open spec fn assembled(segments: Vec<Vec<T>>) -> Seq<T> {
        joined(views(segments@))
    }

    fn from_segments(segments: Vec<Vec<T>>) -> (r: Self) {
        LineString { items: join_segments(&segments) }
    }
}

/// Joins the pieces end to end.
pub fn join_segments<T: Copy>(segments: &Vec<Vec<T>>) -> (r: Vec<T>)
    ensures
        r@ == joined(views(segments@)),
{
    let mut out: Vec<T> = Vec::new();
    let count: usize = segments.len();
    let mut k: usize = 0;
    let ghost all = views(segments@);
    while k < count
        invariant
            count == segments@.len(),
            all == views(segments@),
            k <= count,
            out@ == joined(all.take(k as int)),
        decreases count - k,
    {
        let piece = &segments[k];
        let first: usize = if k == 0 || piece.len() == 0 {
            0
        } else {
            1
        };
        let ghost before = out@;
        let mut j: usize = first;
        while j < piece.len()
            invariant
                first <= j <= piece@.len() || (piece@.len() == 0 && j == 0),
                first <= piece@.len(),
                out@ == before + piece@.subrange(first as int, j as int),
            decreases piece@.len() - j,
        {
            out.push(piece[j]);
            assert(piece@.subrange(first as int, j + 1) =~= piece@.subrange(
                first as int,
                j as int,
            ).push(piece@[j as int]));
            j += 1;
        }
        proof {
            let upto = all.take(k + 1);
            assert(upto.drop_last() =~= all.take(k as int));
            assert(upto.last() == piece@);
            if k == 0 {
                assert(out@ =~= piece@);
            } else {
                assert(out@ =~= joined(all.take(k as int)) + rest_of(piece@));
            }
        }
        k += 1;
    }
    assert(all.take(count as int) =~= all);
    out
}

/// The part of a closed ring from position `start` to position `end`, both included.
/// Where `end` lies before `start` the part runs over the closing vertex, which is the
/// first vertex again and is taken once.
pub open spec fn piece<T>(ring: Seq<T>, start: int, end: int) -> Seq<T> {
    if start <= end {
        ring.subrange(start, end + 1)
    } else {
        ring.subrange(start, ring.len() as int) + ring.subrange(1, end + 1)
    }
}

/// The parts of the ring between each mark and the next.
pub open spec fn pieces<T>(ring: Seq<T>, marks: Seq<usize>) -> Seq<Seq<T>> {
    Seq::new(
        if marks.len() == 0 {
            0
        } else {
            (marks.len() - 1) as nat
        },
        |i: int| piece(ring, marks[i] as int, marks[i + 1] as int),
    )
}

/// Cuts the ring at the marks: one piece from each mark to the next.
pub fn cut_at<T: Copy>(ring: &Vec<T>, marks: &Vec<usize>) -> (r: Vec<Vec<T>>)
    requires
        forall|i: int| 0 <= i < marks@.len() ==> (#[trigger] marks@[i]) < ring@.len(),
    ensures
        views(r@) == pieces(ring@, marks@),
{
    let mut out: Vec<Vec<T>> = Vec::new();
    if marks.len() == 0 {
        assert(views(out@) =~= pieces(ring@, marks@));
        return out;
    }
    let count: usize = marks.len() - 1;
    let len: usize = ring.len();
    let mut k: usize = 0;
    while k < count
        invariant
            len == ring@.len(),
            count + 1 == marks@.len(),
            k <= count,
            forall|i: int| 0 <= i < marks@.len() ==> (#[trigger] marks@[i]) < ring@.len(),
            out@.len() == k,
            forall|i: int|
                0 <= i < k ==> (#[trigger] out@[i])@ == piece(
                    ring@,
                    marks@[i] as int,
                    marks@[i + 1] as int,
                ),
        decreases count - k,
    {
        let start: usize = marks[k];
        let end: usize = marks[k + 1];
        assert(marks@[k as int] < len && marks@[k + 1] < len);
        let mut part: Vec<T> = Vec::new();
        let stop: usize = if start <= end {
            end + 1
        } else {
            len
        };
        let mut j: usize = start;
        while j < stop
            invariant
                start <= j <= stop <= ring@.len(),
                part@ == ring@.subrange(start as int, j as int),
            decreases stop - j,
        {
            part.push(ring[j]);
            assert(part@ =~= ring@.subrange(start as int, j + 1));
            j += 1;
        }
        if start > end {
            let ghost head = part@;
            let mut j: usize = 1;
            while j <= end
                invariant
                    1 <= j <= end + 1,
                    len == ring@.len(),
                    end < len,
                    part@ == head + ring@.subrange(1, j as int),
                decreases end + 1 - j,
            {
                part.push(ring[j]);
                assert(part@ =~= head + ring@.subrange(1, j + 1));
                j += 1;
            }
        }
        out.push(part);
        k += 1;
    }
    assert(views(out@) =~= pieces(ring@, marks@));
    out
}

/// Cutting a ring at marks that never go back and joining the pieces again gives the
/// ring between the first mark and the last.
pub proof fn lemma_cut_and_join<T>(ring: Seq<T>, marks: Seq<usize>)
    requires
        marks.len() >= 2,
        forall|i: int| 0 <= i < marks.len() ==> (#[trigger] marks[i]) < ring.len(),
        forall|i: int, j: int| 0 <= i <= j < marks.len() ==> marks[i] <= marks[j],
    ensures
        joined(pieces(ring, marks)) == ring.subrange(
            marks[0] as int,
            marks[marks.len() - 1] + 1,
        ),
    decreases marks.len(),
{
    let all = pieces(ring, marks);
    let last = marks.len() - 1;
    if marks.len() == 2 {
        assert(all.len() == 1);
        assert(joined(all) == all[0]);
    } else {
        let fewer = marks.drop_last();
        assert forall|i: int, j: int| 0 <= i <= j < fewer.len() implies fewer[i] <= fewer[j] by {
            assert(fewer[i] == marks[i] && fewer[j] == marks[j]);
        }
        lemma_cut_and_join(ring, fewer);
        assert(all.drop_last() =~= pieces(ring, fewer));
        assert(marks[last - 1] <= marks[last]);
        assert(all.last() == ring.subrange(marks[last - 1] as int, marks[last] + 1));
        assert(rest_of(all.last()) =~= ring.subrange(marks[last - 1] + 1, marks[last] + 1));
        assert(marks[0] <= marks[last - 1]);
        assert(joined(all) =~= ring.subrange(marks[0] as int, marks[last] + 1));
    }
}

} // verus!
