use vstd::prelude::*;
use crate::error::Error;
use crate::mesh::concat_vecs;

verus! {

/// The points that a bound contributes to a face: a single point (a vertex
/// loop, as on the tip of a cone) is kept, and a closed contour loses its
/// last point, which repeats the first.
pub open spec fn kept_points<T>(c: Seq<T>) -> Seq<T> {
    if c.len() == 1 {
        c
    } else {
        c.drop_last()
    }
}

/// The points of all bounds of a face, in order.
pub open spec fn face_points<T>(cs: Seq<Seq<T>>) -> Seq<T>
    decreases cs.len(),
{
    if cs.len() == 0 {
        Seq::empty()
    } else {
        face_points(cs.drop_last()) + kept_points(cs.last())
    }
}

/// The closed chain of `m` edges through the points `s .. s + m`.
pub open spec fn cycle_edges(s: int, m: int) -> Seq<(usize, usize)> {
    Seq::new(
        m as nat,
        |j: int| ((s + j) as usize, (if j + 1 < m { s + j + 1 } else { s }) as usize),
    )
}

/// The constrained edges of all bounds of a face: every contour of two or
/// more points becomes a closed chain; a single point gives no edge.
pub open spec fn face_edges<T>(cs: Seq<Seq<T>>) -> Seq<(usize, usize)>
    decreases cs.len(),
{
    if cs.len() == 0 {
        Seq::empty()
    } else {
        let prev = face_edges(cs.drop_last());
        let c = cs.last();
        if c.len() >= 2 {
            prev + cycle_edges(face_points(cs.drop_last()).len() as int, c.len() - 1)
        } else {
            prev
        }
    }
}

/// Some bound of the face has no point at all.
pub open spec fn has_empty_bound<T>(cs: Seq<Seq<T>>) -> bool {
    exists|i: int| 0 <= i < cs.len() && (#[trigger] cs[i]).len() == 0
}

pub open spec fn views<T>(cs: Seq<Vec<T>>) -> Seq<Seq<T>> {
    cs.map_values(|v: Vec<T>| v@)
}

proof fn lemma_face_points_len<T>(cs: Seq<Seq<T>>)
    requires
        !has_empty_bound(cs),
    ensures
        face_points(cs).len() <= cs.flatten().len(),
    decreases cs.len(),
{
    if cs.len() > 0 {
        let p = cs.drop_last();
        assert(!has_empty_bound(p)) by {
            if has_empty_bound(p) {
                let i = choose|i: int| 0 <= i < p.len() && (#[trigger] p[i]).len() == 0;
                assert(cs[i].len() == 0);
            }
        }
        lemma_face_points_len(p);
        assert(cs =~= p.push(cs.last()));
        p.lemma_flatten_push(cs.last());
    }
}

/// Collects the points of the bounds of a face and the constrained edges
/// that close each bound, ready for a constrained triangulation. A bound
/// with no point makes the face unusable.
pub fn contour_edges<T: Copy>(bounds: &Vec<Vec<T>>) -> (r: Result<(Vec<T>, Vec<(usize, usize)>), Error>)
    requires
        concat_vecs(bounds@).len() <= usize::MAX,
    ensures
        has_empty_bound(views(bounds@)) <==> r is Err,
        r is Err ==> r == Err::<(Vec<T>, Vec<(usize, usize)>), Error>(Error::CouldNotLower),
        r matches Ok((pts, edges)) ==> pts@ == face_points(views(bounds@)) && edges@ == face_edges(
            views(bounds@),
        ),
{
    let ghost cs = views(bounds@);
    let n = bounds.len();
    let mut pts: Vec<T> = Vec::new();
    let mut edges: Vec<(usize, usize)> = Vec::new();
    let mut i: usize = 0;
    while i < n
        invariant
            n == bounds.len(),
            cs == views(bounds@),
            concat_vecs(bounds@).len() <= usize::MAX,
            0 <= i <= n,
            !has_empty_bound(cs.take(i as int)),
            pts@ == face_points(cs.take(i as int)),
            edges@ == face_edges(cs.take(i as int)),
        decreases n - i,
    {
        let ghost pre = cs.take(i as int);
        assert(cs.take(i + 1).drop_last() =~= pre);
        let len = bounds[i].len();
        if len == 0 {
            assert(cs[i as int].len() == 0);
            assert(has_empty_bound(cs));
            return Err(Error::CouldNotLower);
        }
        proof {
            assert(!has_empty_bound(cs.take(i + 1))) by {
                if has_empty_bound(cs.take(i + 1)) {
                    let j = choose|j: int|
                        0 <= j < cs.take(i + 1).len() && (#[trigger] cs.take(i + 1)[j]).len() == 0;
                    if j < i {
                        assert(pre[j].len() == 0);
                    }
                }
            }
            lemma_face_points_len(cs.take(i + 1));
            assert(cs.take(i + 1).flatten().len() <= cs.flatten().len()) by {
                vstd::seq_lib::lemma_flatten_concat(cs.take(i + 1), cs.skip(i + 1));
                assert(cs =~= cs.take(i + 1) + cs.skip(i + 1));
            }
        }
        if len == 1 {
            pts.push(bounds[i][0]);
            assert(pts@ =~= face_points(cs.take(i + 1)));
        } else {
            let start = pts.len();
            let ghost e0 = edges@;
            let mut j: usize = 0;
            while j < len - 1
                invariant
                    n == bounds.len(),
                    0 <= i < n,
                    len == bounds@[i as int].len(),
                    len >= 2,
                    cs == views(bounds@),
                    start == face_points(pre).len(),
                    0 <= j <= len - 1,
                    pts@ == face_points(pre) + bounds@[i as int]@.take(j as int),
                    edges@ == e0 + Seq::new(
                        j as nat,
                        |k: int| ((start + k) as usize, (start + k + 1) as usize),
                    ),
                    face_points(cs.take(i + 1)).len() <= usize::MAX,
                    face_points(cs.take(i + 1)) == face_points(pre) + bounds@[i as int]@.drop_last(),
                decreases len - 1 - j,
            {
                let np = pts.len();
                edges.push((np, np + 1));
                pts.push(bounds[i][j]);
                j = j + 1;
                assert(pts@ =~= face_points(pre) + bounds@[i as int]@.take(j as int));
                assert(edges@ =~= e0 + Seq::new(
                    j as nat,
                    |k: int| ((start + k) as usize, (start + k + 1) as usize),
                ));
            }
            let last = edges.len() - 1;
            let (a, _b) = edges[last];
            edges.set(last, (a, start));
            assert(pts@ =~= face_points(cs.take(i + 1)));
            assert(edges@ =~= face_edges(cs.take(i + 1)));
        }
        i = i + 1;
    }
    assert(cs.take(n as int) =~= cs);
    Ok((pts, edges))
}


/// Every constrained edge of a face joins two of the face's points.
pub proof fn lemma_face_edges_in_range<T>(cs: Seq<Seq<T>>)
    requires
        !has_empty_bound(cs),
    ensures
        forall|i: int|
            0 <= i < face_edges(cs).len() ==> (#[trigger] face_edges(cs)[i]).0 < face_points(cs).len()
                && face_edges(cs)[i].1 < face_points(cs).len(),
    decreases cs.len(),
{
    if cs.len() > 0 {
        let p = cs.drop_last();
        assert(!has_empty_bound(p)) by {
            if has_empty_bound(p) {
                let i = choose|i: int| 0 <= i < p.len() && (#[trigger] p[i]).len() == 0;
                assert(cs[i].len() == 0);
            }
        }
        lemma_face_edges_in_range(p);
        assert(cs.last().len() > 0) by {
            assert(cs[cs.len() - 1].len() > 0 || has_empty_bound(cs));
        }
        let pe = face_edges(p);
        let e = face_edges(cs);
        assert forall|i: int| 0 <= i < e.len() implies (#[trigger] e[i]).0 < face_points(cs).len()
            && e[i].1 < face_points(cs).len() by {
            if i < pe.len() {
                assert(pe[i] == e[i]);
            }
        }
    }
}


/// `v` in reverse order.
pub fn reversed<T>(v: Vec<T>) -> (r: Vec<T>)
    ensures
        r@ == v@.reverse(),
{
    let ghost vs = v@;
    let mut rest = v;
    let mut out: Vec<T> = Vec::new();
    while rest.len() > 0
        invariant
            rest.len() + out.len() == vs.len(),
            rest@ == vs.take(rest.len() as int),
            forall|j: int| 0 <= j < out.len() ==> out@[j] == vs[vs.len() - 1 - j],
        decreases rest.len(),
    {
        let x = rest.pop().unwrap();
        out.push(x);
        assert(rest@ =~= vs.take(rest.len() as int));
    }
    assert(out@ =~= vs.reverse());
    out
}

/// The points of a bound, in the direction that its orientation asks for:
/// as given when `orientation` holds, reversed otherwise.
pub fn orient_bound<T>(points: Vec<T>, orientation: bool) -> (r: Vec<T>)
    ensures
        r@ == (if orientation { points@ } else { points@.reverse() }),
{
    if orientation {
        points
    } else {
        reversed(points)
    }
}

/// `s` without its last element, if it has one.
pub open spec fn drop_last_if_any<T>(s: Seq<T>) -> Seq<T> {
    if s.len() > 0 {
        s.drop_last()
    } else {
        s
    }
}

/// The points of an edge loop: each edge's points follow those of the
/// previous edge, whose last point (the shared vertex) is dropped.
pub open spec fn joined_segments<T>(segs: Seq<Seq<T>>) -> Seq<T>
    decreases segs.len(),
{
    if segs.len() == 0 {
        Seq::empty()
    } else if segs.len() == 1 {
        segs[0]
    } else {
        drop_last_if_any(joined_segments(segs.drop_last())) + segs.last()
    }
}

/// Joins the point lists of the edges of a loop into the loop's points,
/// dropping the point where one edge ends and the next begins.
pub fn join_edge_segments<T>(segments: Vec<Vec<T>>) -> (r: Vec<T>)
    ensures
        r@ == joined_segments(views(segments@)),
{
    let ghost ss = segments@;
    let k = segments.len();
    let mut pending = reversed(segments);
    let mut out: Vec<T> = Vec::new();
    let mut i: usize = 0;
    while i < k
        invariant
            0 <= i <= k,
            k == ss.len(),
            pending.len() == k - i,
            forall|j: int| 0 <= j < k - i ==> pending@[j] == ss[k - 1 - j],
            out@ == joined_segments(views(ss.take(i as int))),
        decreases k - i,
    {
        let mut seg = pending.pop().unwrap();
        assert(seg == ss[i as int]);
        if i > 0 {
            out.pop();
        }
        out.append(&mut seg);
        i = i + 1;
        assert(views(ss.take(i as int)).drop_last() =~= views(ss.take((i - 1) as int)));
        assert(out@ =~= joined_segments(views(ss.take(i as int))));
    }
    assert(ss.take(k as int) =~= ss);
    out
}


/// Reacts to a triangulation that found point `p` lying on a fixed edge.
/// A Steiner point (one of those after the first `bonus_points`) is
/// dropped by moving it onto the first point, where it vanishes as a
/// duplicate, and the triangulation is to be tried again; a boundary point
/// means the face cannot be triangulated.
pub fn drop_steiner_point<T: Copy>(pts: &mut Vec<T>, p: usize, bonus_points: usize) -> (retry: bool)
    requires
        p >= bonus_points ==> p < old(pts).len(),
    ensures
        retry == (p >= bonus_points),
        retry ==> final(pts)@ == old(pts)@.update(p as int, old(pts)@[0]),
        !retry ==> final(pts)@ == old(pts)@,
{
    if p >= bonus_points {
        let first = pts[0];
        pts.set(p, first);
        true
    } else {
        false
    }
}

/// The loop that bounds a face.
pub enum BoundLoop<T> {
    /// An edge loop: the points of each of its edges, in order.
    Edges(Vec<Vec<T>>),
    /// A loop made of a single vertex, as on the tip of a cone.
    Vertex(T),
}

/// The points of a face bound: an edge loop's joined edges, reversed when
/// the bound runs against its loop; a vertex loop's single point.
pub open spec fn bound_points<T>(b: BoundLoop<T>, orientation: bool) -> Seq<T> {
    match b {
        BoundLoop::Edges(segs) => {
            let pts = joined_segments(views(segs@));
            if orientation {
                pts
            } else {
                pts.reverse()
            }
        },
        BoundLoop::Vertex(p) => seq![p],
    }
}

/// Collects the points of a face bound.
pub fn face_bound_points<T>(b: BoundLoop<T>, orientation: bool) -> (r: Vec<T>)
    ensures
        r@ == bound_points(b, orientation),
{
    match b {
        BoundLoop::Edges(segs) => orient_bound(join_edge_segments(segs), orientation),
        BoundLoop::Vertex(p) => {
            let mut v = Vec::new();
            v.push(p);
            assert(v@ =~= seq![p]);
            v
        },
    }
}

} // verus!
