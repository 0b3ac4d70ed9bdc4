//! Clipping of planar geometries against an axis-aligned rectangle.
//!
//! Coordinates are integers on a fixed-point grid chosen by the caller. Every
//! predicate is exact; a point where a segment crosses the window's boundary
//! lies exactly on that boundary, with its coordinate along the boundary
//! rounded toward the segment's start.
pub mod geom;
pub mod laws;
pub mod rect;
pub mod stitch;
pub mod util;

use geom::{
    all_bounded, lemma_reverse_bounded, lines_of, lines_vec, spec_is_inside, views_of, Coord,
    Geometry, LineString, Polygon, Reverse, COORD_LIMIT,
};
pub use rect::Rect;
use rect::PerimeterIndex;
use stitch::{
    find_next_fragment, fragments_ok, is_closed, lemma_open_count_push, lemma_open_count_remove,
    has_three_distinct, lemma_sort_fragments_ok, lemma_stitch_rings_ok, open_count,
    proper_rings, queue_view, rings_ok, sort_desc, sort_fragments, stitch, Fragment,
};
use util::{
    copy_chain, find_coord_inside, first_inside, segments_to_coords, segments_to_linestring,
    three_distinct,
};
use vstd::prelude::*;

verus! {

/// Coordinates of each line string of a sequence.
pub open spec fn ring_views(v: Seq<LineString>) -> Seq<Seq<Coord>> {
    v.map_values(|l: LineString| l.0@)
}

/// The chain of each run of segments.
pub open spec fn chains_of(groups: Seq<Seq<geom::Line>>) -> Seq<Seq<Coord>> {
    groups.map_values(|g: Seq<geom::Line>| segments_to_coords(g))
}

/// Each chain tagged with the perimeter position of its first coordinate.
pub open spec fn tag_fragments(r: Rect, chains: Seq<Seq<Coord>>) -> Seq<(PerimeterIndex, Seq<Coord>)> {
    chains.map_values(|c: Seq<Coord>| (r.spec_perimeter_index(c[0]), c))
}

/// Clipping of geometries against one rectangular window.
pub struct ClipRect {
    pub inner: Rect,
}

impl ClipRect {
    pub open spec fn wf(self) -> bool {
        self.inner.wf()
    }

    /// Pieces of the chain `pts` inside the window, each a connected chain.
    pub open spec fn spec_clip_linestring(self, pts: Seq<Coord>) -> Seq<Seq<Coord>> {
        chains_of(self.inner.spec_clip_segments(lines_of(pts)))
    }

    /// Closed rings of the ring `pts` clipped to the window: the stitched
    /// rings that enclose some area, with at least three different
    /// coordinates.
    pub open spec fn spec_clip_polygon_ring(self, pts: Seq<Coord>) -> Seq<Seq<Coord>> {
        keep_rings(self.spec_stitch_ring(pts))
    }

    /// Closed rings of the ring `pts` clipped to the window, degenerate ones
    /// included.
    ///
    /// When no edge of the ring reaches into the window, the result is the
    /// window's own boundary if the window lies inside the ring, and nothing
    /// otherwise. Else the clipped pieces, sorted by descending start
    /// position, are stitched along the boundary.
    pub open spec fn spec_stitch_ring(self, pts: Seq<Coord>) -> Seq<Seq<Coord>> {
        let chains = self.spec_clip_linestring(pts);
        if chains.len() == 0 {
            if spec_is_inside(self.inner.center(), pts) {
                seq![self.inner.boundary_ring()]
            } else {
                Seq::empty()
            }
        } else {
            stitch(self.inner, sort_desc(tag_fragments(self.inner, chains)), Seq::empty())
        }
    }

    /// The window `[x0, x1] x [y0, y1]`.
    pub fn new(x0: i64, y0: i64, x1: i64, y1: i64) -> (r: ClipRect)
        requires
            x0 <= x1,
            y0 <= y1,
            -COORD_LIMIT <= x0,
            x1 <= COORD_LIMIT,
            -COORD_LIMIT <= y0,
            y1 <= COORD_LIMIT,
        ensures
            r.wf(),
            r.inner.x0 == x0 && r.inner.y0 == y0 && r.inner.x1 == x1 && r.inner.y1 == y1,
    {
        ClipRect { inner: Rect::new(x0, y0, x1, y1) }
    }

    fn clip_linestring(&self, g: &LineString) -> (r: Vec<LineString>)
        requires
            self.wf(),
            all_bounded(g.0@, COORD_LIMIT as int),
        ensures
            ring_views(r@) == self.spec_clip_linestring(g.0@),
            forall|i: int| 0 <= i < r.len() ==> (#[trigger] r@[i]).0@.len() >= 2 && all_bounded(
                r@[i].0@,
                COORD_LIMIT as int,
            ),
    {
        let lines = lines_vec(&g.0);
        proof {
            geom::lemma_lines_bounded(g.0@, COORD_LIMIT as int);
        }
        let groups = self.inner.clip_segments(&lines);
        let ghost target = self.spec_clip_linestring(g.0@);
        let mut out: Vec<LineString> = Vec::new();
        let mut i: usize = 0;
        while i < groups.len()
            invariant
                i <= groups.len(),
                target == chains_of(views_of(groups@)),
                ring_views(out@) =~= target.take(i as int),
                forall|k: int| 0 <= k < groups.len() ==> (#[trigger] groups@[k]).len() > 0,
                forall|a: int, b: int|
                    0 <= a < groups.len() && 0 <= b < groups@[a].len()
                        ==> #[trigger] groups@[a]@[b].bounded(COORD_LIMIT as int),
                forall|k: int|
                    0 <= k < out.len() ==> (#[trigger] out@[k]).0@.len() >= 2 && all_bounded(
                        out@[k].0@,
                        COORD_LIMIT as int,
                    ),
            decreases groups.len() - i,
        {
            let ls = segments_to_linestring(&groups[i]);
            assert(all_bounded(ls.0@, COORD_LIMIT as int)) by {
                assert forall|k: int| 0 <= k < ls.0@.len() implies #[trigger] ls.0@[k].bounded(
                    COORD_LIMIT as int,
                ) by {
                    if k < groups@[i as int].len() {
                        assert(groups@[i as int]@[k].bounded(COORD_LIMIT as int));
                    } else {
                        let last = groups@[i as int].len() - 1;
                        assert(groups@[i as int]@[last].bounded(COORD_LIMIT as int));
                    }
                }
            }
            let ghost before = ring_views(out@);
            assert(target[i as int] == ls.0@);
            out.push(ls);
            assert(ring_views(out@) =~= before.push(ls.0@));
            assert(target.take(i + 1) =~= target.take(i as int).push(target[i as int]));
            i = i + 1;
        }
        out
    }

    /// Clips one ring to the window: closed rings with at least three
    /// different coordinates each.
    fn clip_polygon_ring(&self, g: &LineString) -> (r: Vec<LineString>)
        requires
            self.wf(),
            all_bounded(g.0@, COORD_LIMIT as int),
        ensures
            ring_views(r@) == self.spec_clip_polygon_ring(g.0@),
            proper_rings(ring_views(r@)),
    {
        let rings = self.stitch_ring(g);
        let mut out: Vec<LineString> = Vec::new();
        assert(ring_views(out@) =~= Seq::<Seq<Coord>>::empty());
        ClipRect::keep_rings_into(&rings, &mut out);
        assert(ring_views(out@) =~= keep_rings(ring_views(rings@)));
        out
    }

    /// Clips one ring and stitches the pieces back into closed rings through
    /// the window's corners.
    fn stitch_ring(&self, g: &LineString) -> (r: Vec<LineString>)
        requires
            self.wf(),
            all_bounded(g.0@, COORD_LIMIT as int),
        ensures
            ring_views(r@) == self.spec_stitch_ring(g.0@),
            rings_ok(ring_views(r@)),
    {
        let chains = self.clip_linestring(g);
        let ghost cv = ring_views(chains@);
        let mut frags: Vec<Fragment> = Vec::new();
        let mut i: usize = 0;
        while i < chains.len()
            invariant
                self.wf(),
                i <= chains.len(),
                cv == ring_views(chains@),
                forall|k: int|
                    0 <= k < chains.len() ==> (#[trigger] chains@[k]).0@.len() >= 2 && all_bounded(
                        chains@[k].0@,
                        COORD_LIMIT as int,
                    ),
                queue_view(frags@) =~= tag_fragments(self.inner, cv.take(i as int)),
                fragments_ok(queue_view(frags@)),
            decreases chains.len() - i,
        {
            let c = chains[i].0.clone();
            assert(c@ == chains@[i as int].0@) by {
                assert(c@ =~= chains@[i as int].0@);
            }
            assert(c@[0].bounded(COORD_LIMIT as int));
            let p = self.inner.perimeter_index(&c[0]);
            let ghost before = queue_view(frags@);
            let ghost tagged = tag_fragments(self.inner, cv.take(i + 1));
            assert(cv[i as int] == c@);
            frags.push((p, c));
            assert(queue_view(frags@) =~= before.push((p, c@)));
            assert(tagged =~= tag_fragments(self.inner, cv.take(i as int)).push((p, c@)));
            assert(fragments_ok(queue_view(frags@))) by {
                let q = queue_view(frags@);
                assert forall|k: int| 0 <= k < q.len() implies (#[trigger] q[k]).0.side <= 4
                    && q[k].1.len() >= 2 && all_bounded(q[k].1, COORD_LIMIT as int) by {
                    if k < before.len() {
                        assert(q[k] == before[k]);
                    }
                }
            }
            i = i + 1;
        }
        assert(cv.take(chains.len() as int) =~= cv);
        if frags.len() == 0 {
            let mut out: Vec<LineString> = Vec::new();
            if self.inner.is_contained(g) {
                out.push(self.inner.boundary());
                assert(ring_views(out@) =~= seq![self.inner.boundary_ring()]);
            } else {
                assert(ring_views(out@) =~= Seq::<Seq<Coord>>::empty());
            }
            return out;
        }
        let ghost unsorted = queue_view(frags@);
        let mut queue = sort_fragments(frags);
        proof {
            lemma_sort_fragments_ok(unsorted);
            lemma_stitch_rings_ok(self.inner, queue_view(queue@), Seq::empty());
        }
        let ghost target = stitch(self.inner, queue_view(queue@), Seq::empty());
        let mut output: Vec<LineString> = Vec::new();
        assert(ring_views(output@) =~= Seq::<Seq<Coord>>::empty());
        while queue.len() > 0
            invariant
                self.wf(),
                fragments_ok(queue_view(queue@)),
                stitch(self.inner, queue_view(queue@), ring_views(output@)) == target,
            decreases 2 * queue.len() + open_count(queue_view(queue@)),
        {
            let ghost qv = queue_view(queue@);
            let ghost ov = ring_views(output@);
            let (start, mut a) = queue.pop().unwrap();
            let ghost rest = queue_view(queue@);
            proof {
                assert(rest =~= qv.drop_last());
                assert(qv.last() == (start, a@));
                assert(rest.push(qv.last()) =~= qv);
                lemma_open_count_push(rest, qv.last());
                assert(qv[qv.len() - 1] == qv.last());
                assert(fragments_ok(rest)) by {
                    assert forall|k: int| 0 <= k < rest.len() implies (#[trigger] rest[k]).0.side
                        <= 4 && rest[k].1.len() >= 2 && all_bounded(rest[k].1, COORD_LIMIT as int) by {
                        assert(rest[k] == qv[k]);
                    }
                }
            }
            if a.len() == 0 || a[0] == a[a.len() - 1] {
                output.push(LineString(a));
                assert(ring_views(output@) =~= ov.push(a@));
                continue;
            }
            assert(!is_closed(a@));
            assert(a@.last().bounded(COORD_LIMIT as int));
            let tail = self.inner.perimeter_index(&a[a.len() - 1]);
            match find_next_fragment(&self.inner, &queue, tail, start) {
                Some(k) => {
                    let ghost b = rest[k as int];
                    let (b_start, mut b_pts) = queue.remove(k);
                    assert(b == (b_start, b_pts@));
                    let mut corners = self.inner.corner_nodes_between(tail, b_start);
                    let ghost joined = a@ + corners@ + b_pts@;
                    a.append(&mut corners);
                    a.append(&mut b_pts);
                    assert(a@ =~= joined);
                    queue.push((start, a));
                    proof {
                        assert(queue_view(queue@) =~= rest.remove(k as int).push((start, joined)));
                        lemma_open_count_remove(rest, k as int);
                        lemma_open_count_push(rest.remove(k as int), (start, joined));
                        assert(all_bounded(joined, COORD_LIMIT as int)) by {
                            assert forall|t: int| 0 <= t < joined.len() implies #[trigger] joined[t].bounded(
                                COORD_LIMIT as int,
                            ) by {
                                if t >= joined.len() - b.1.len() {
                                    assert(joined[t] == b.1[t - (joined.len() - b.1.len())]);
                                }
                            }
                        }
                        let q2 = queue_view(queue@);
                        assert forall|t: int| 0 <= t < q2.len() implies (#[trigger] q2[t]).0.side <= 4
                            && q2[t].1.len() >= 2 && all_bounded(q2[t].1, COORD_LIMIT as int) by {
                            if t < k {
                                assert(q2[t] == rest[t]);
                            } else if t < q2.len() - 1 {
                                assert(q2[t] == rest[t + 1]);
                            }
                        }
                    }
                },
                None => {
                    let mut corners = self.inner.corner_nodes_between(tail, start);
                    let first = a[0];
                    let ghost closed = a@ + corners@ + seq![first];
                    a.append(&mut corners);
                    a.push(first);
                    assert(a@ =~= closed);
                    queue.push((start, a));
                    proof {
                        assert(queue_view(queue@) =~= rest.push((start, closed)));
                        assert(closed[0] == first);
                        assert(closed.last() == first);
                        lemma_open_count_push(rest, (start, closed));
                        assert(all_bounded(closed, COORD_LIMIT as int)) by {
                            assert forall|t: int| 0 <= t < closed.len() implies #[trigger] closed[t].bounded(
                                COORD_LIMIT as int,
                            ) by {
                                if t == closed.len() - 1 {
                                    assert(closed[t] == qv.last().1[0]);
                                }
                            }
                        }
                        let q2 = queue_view(queue@);
                        assert forall|t: int| 0 <= t < q2.len() implies (#[trigger] q2[t]).0.side <= 4
                            && q2[t].1.len() >= 2 && all_bounded(q2[t].1, COORD_LIMIT as int) by {
                            if t < rest.len() {
                                assert(q2[t] == rest[t]);
                            }
                        }
                    }
                },
            }
        }
        output
    }
}

/// A polygon as its exterior ring and its holes.
pub type PolygonView = (Seq<Coord>, Seq<Seq<Coord>>);

pub open spec fn poly_view(p: Polygon) -> PolygonView {
    (p.exterior.0@, ring_views(p.interiors@))
}

pub open spec fn polys_view(v: Seq<Polygon>) -> Seq<PolygonView> {
    v.map_values(|p: Polygon| poly_view(p))
}

/// The rings with at least three different coordinates, in order.
pub open spec fn keep_rings(rs: Seq<Seq<Coord>>) -> Seq<Seq<Coord>>
    decreases rs.len(),
{
    if rs.len() == 0 {
        rs
    } else {
        let k = keep_rings(rs.drop_last());
        if has_three_distinct(rs.last()) {
            k.push(rs.last())
        } else {
            k
        }
    }
}

/// Index of the first polygon, from `i` on, whose exterior holds `c`.
pub open spec fn first_containing(polys: Seq<PolygonView>, c: Coord, i: int) -> int
    decreases polys.len() - i,
{
    if i < 0 || i >= polys.len() {
        polys.len() as int
    } else if spec_is_inside(c, polys[i].0) {
        i
    } else {
        first_containing(polys, c, i + 1)
    }
}

pub open spec fn add_hole(polys: Seq<PolygonView>, k: int, h: Seq<Coord>) -> Seq<PolygonView> {
    polys.update(k, (polys[k].0, polys[k].1.push(h)))
}

impl ClipRect {
    /// Clipped holes of a polygon, each ring in the winding of an exterior:
    /// every hole is reversed and clipped as a ring.
    pub open spec fn hole_rings(self, interiors: Seq<Seq<Coord>>) -> Seq<Seq<Coord>>
        decreases interiors.len(),
    {
        if interiors.len() == 0 {
            Seq::empty()
        } else {
            self.hole_rings(interiors.drop_last()) + self.spec_clip_polygon_ring(
                interiors.last().reverse(),
            )
        }
    }

    /// Gives the clipped hole `h`, turned back to hole winding, to the
    /// polygon that holds it: the only one, or else the first whose exterior
    /// holds the first coordinate of `h` strictly inside the window. A hole
    /// with no such coordinate, or that no exterior holds, is dropped.
    pub open spec fn place_hole(self, polys: Seq<PolygonView>, h: Seq<Coord>) -> Seq<PolygonView> {
        if polys.len() == 1 {
            add_hole(polys, 0, h.reverse())
        } else {
            match first_inside(self.inner, h, 0) {
                None => polys,
                Some(c) => {
                    let k = first_containing(polys, c, 0);
                    if k < polys.len() {
                        add_hole(polys, k, h.reverse())
                    } else {
                        polys
                    }
                },
            }
        }
    }

    pub open spec fn place_holes(self, polys: Seq<PolygonView>, hs: Seq<Seq<Coord>>) -> Seq<
        PolygonView,
    >
        decreases hs.len(),
    {
        if hs.len() == 0 {
            polys
        } else {
            self.place_hole(self.place_holes(polys, hs.drop_last()), hs.last())
        }
    }

    /// The polygon with exterior `ext` and holes `interiors`, clipped: one
    /// polygon per clipped exterior ring, with the clipped holes placed in
    /// them.
    pub open spec fn spec_clip_polygon(self, ext: Seq<Coord>, interiors: Seq<Seq<Coord>>) -> Seq<
        PolygonView,
    > {
        let polys = self.spec_clip_polygon_ring(ext).map_values(
            |e: Seq<Coord>| (e, Seq::<Seq<Coord>>::empty()),
        );
        if polys.len() == 0 {
            polys
        } else {
            self.place_holes(polys, self.hole_rings(interiors))
        }
    }

    /// Appends to `out` the rings of `rings` with at least three different
    /// coordinates.
    fn keep_rings_into(rings: &Vec<LineString>, out: &mut Vec<LineString>)
        requires
            rings_ok(ring_views(rings@)),
            proper_rings(ring_views(old(out)@)),
        ensures
            ring_views(final(out)@) == ring_views(old(out)@) + keep_rings(ring_views(rings@)),
            proper_rings(ring_views(final(out)@)),
    {
        let ghost rv = ring_views(rings@);
        let ghost base = ring_views(out@);
        let mut i: usize = 0;
        assert(keep_rings(rv.take(0)) =~= Seq::<Seq<Coord>>::empty());
        assert(ring_views(out@) =~= base + keep_rings(rv.take(0)));
        while i < rings.len()
            invariant
                i <= rings.len(),
                rv == ring_views(rings@),
                rings_ok(rv),
                ring_views(out@) == base + keep_rings(rv.take(i as int)),
                proper_rings(ring_views(out@)),
            decreases rings.len() - i,
        {
            let ghost before = ring_views(out@);
            assert(rv.take(i + 1).drop_last() =~= rv.take(i as int));
            assert(rv[i as int] == rings@[i as int].0@);
            if three_distinct(&rings[i].0) {
                out.push(copy_chain(&rings[i]));
                assert(ring_views(out@) =~= before.push(rv[i as int]));
                assert(ring_views(out@) =~= base + keep_rings(rv.take(i + 1)));
                assert(proper_rings(ring_views(out@))) by {
                    let o = ring_views(out@);
                    assert forall|k: int| 0 <= k < o.len() implies is_closed(#[trigger] o[k])
                        && o[k].len() >= 2 && all_bounded(o[k], COORD_LIMIT as int)
                        && has_three_distinct(o[k]) by {
                        if k < before.len() {
                            assert(o[k] == before[k]);
                        } else {
                            assert(o[k] == rv[i as int]);
                        }
                    }
                }
            } else {
                assert(ring_views(out@) =~= base + keep_rings(rv.take(i + 1)));
            }
            i = i + 1;
        }
        assert(rv.take(rings.len() as int) =~= rv);
    }

    /// Index of the first polygon whose exterior holds `c`.
    fn find_containing(polys: &Vec<Polygon>, c: &Coord) -> (r: usize)
        requires
            c.bounded(COORD_LIMIT as int),
            forall|k: int|
                0 <= k < polys.len() ==> all_bounded(
                    (#[trigger] polys@[k]).exterior.0@,
                    COORD_LIMIT as int,
                ),
        ensures
            r == first_containing(polys_view(polys@), *c, 0),
    {
        let ghost pv = polys_view(polys@);
        let mut j: usize = 0;
        while j < polys.len()
            invariant
                j <= polys.len(),
                pv == polys_view(polys@),
                c.bounded(COORD_LIMIT as int),
                forall|k: int|
                    0 <= k < polys.len() ==> all_bounded(
                        (#[trigger] polys@[k]).exterior.0@,
                        COORD_LIMIT as int,
                    ),
                first_containing(pv, *c, 0) == first_containing(pv, *c, j as int),
            decreases polys.len() - j,
        {
            assert(pv[j as int].0 == polys@[j as int].exterior.0@);
            if c.is_inside(&polys[j].exterior) {
                return j;
            }
            j = j + 1;
        }
        j
    }

    /// Adds a hole to polygon `k`.
    fn push_hole(polys: &mut Vec<Polygon>, k: usize, hole: LineString)
        requires
            k < old(polys).len(),
        ensures
            polys_view(final(polys)@) == add_hole(polys_view(old(polys)@), k as int, hole.0@),
            final(polys).len() == old(polys).len(),
            forall|t: int|
                0 <= t < final(polys).len() ==> (#[trigger] final(polys)@[t]).exterior.0@ == old(
                    polys,
                )@[t].exterior.0@,
    {
        let ghost before = polys_view(polys@);
        let ghost old_polys = polys@;
        let mut p = polys.remove(k);
        let ghost old_holes = ring_views(p.interiors@);
        p.interiors.push(hole);
        assert(ring_views(p.interiors@) =~= old_holes.push(hole.0@));
        polys.insert(k, p);
        assert(polys_view(polys@) =~= add_hole(before, k as int, hole.0@)) by {
            assert forall|t: int| 0 <= t < polys.len() implies #[trigger] polys_view(polys@)[t]
                == add_hole(before, k as int, hole.0@)[t] by {
                if t < k {
                    assert(polys@[t] == old_polys[t]);
                } else if t > k {
                    assert(polys@[t] == old_polys[t]);
                }
            }
        }
        assert forall|t: int| 0 <= t < polys.len() implies (#[trigger] polys@[t]).exterior.0@
            == old_polys[t].exterior.0@ by {
            if t != k {
                assert(polys@[t] == old_polys[t]);
            }
        }
    }

    /// Clips a polygon: its exterior ring, then its holes, each placed in the
    /// clipped polygon that holds it.
    fn clip_polygon(&self, g: &Polygon) -> (r: Vec<Polygon>)
        requires
            self.wf(),
            all_bounded(g.exterior.0@, COORD_LIMIT as int),
            forall|i: int|
                0 <= i < g.interiors.len() ==> all_bounded(
                    (#[trigger] g.interiors@[i]).0@,
                    COORD_LIMIT as int,
                ),
        ensures
            polys_view(r@) == self.spec_clip_polygon(
                g.exterior.0@,
                ring_views(g.interiors@),
            ),
    {
        let exteriors = self.clip_polygon_ring(&g.exterior);
        let ghost ev = ring_views(exteriors@);
        let ghost polys0 = ev.map_values(|e: Seq<Coord>| (e, Seq::<Seq<Coord>>::empty()));
        let mut polys: Vec<Polygon> = Vec::new();
        let mut i: usize = 0;
        while i < exteriors.len()
            invariant
                i <= exteriors.len(),
                ev == ring_views(exteriors@),
                proper_rings(ev),
                polys0 == ev.map_values(|e: Seq<Coord>| (e, Seq::<Seq<Coord>>::empty())),
                polys_view(polys@) =~= polys0.take(i as int),
                polys.len() == i,
                forall|k: int|
                    0 <= k < polys.len() ==> all_bounded(
                        (#[trigger] polys@[k]).exterior.0@,
                        COORD_LIMIT as int,
                    ),
            decreases exteriors.len() - i,
        {
            let ghost before = polys_view(polys@);
            let interiors: Vec<LineString> = Vec::new();
            let p = Polygon { exterior: copy_chain(&exteriors[i]), interiors };
            assert(ring_views(p.interiors@) =~= Seq::<Seq<Coord>>::empty());
            assert(ev[i as int] == exteriors@[i as int].0@);
            polys.push(p);
            assert(polys_view(polys@) =~= before.push(poly_view(p)));
            i = i + 1;
        }
        assert(polys0.take(exteriors.len() as int) =~= polys0);
        if polys.len() == 0 {
            return polys;
        }
        let ghost iv = ring_views(g.interiors@);
        let mut holes: Vec<LineString> = Vec::new();
        let mut i: usize = 0;
        assert(iv.take(0) =~= Seq::<Seq<Coord>>::empty());
        assert(ring_views(holes@) =~= Seq::<Seq<Coord>>::empty());
        while i < g.interiors.len()
            invariant
                self.wf(),
                i <= g.interiors.len(),
                iv == ring_views(g.interiors@),
                forall|k: int|
                    0 <= k < g.interiors.len() ==> all_bounded(
                        (#[trigger] g.interiors@[k]).0@,
                        COORD_LIMIT as int,
                    ),
                ring_views(holes@) == self.hole_rings(iv.take(i as int)),
            decreases g.interiors.len() - i,
        {
            let ring = copy_chain(&g.interiors[i]).reverse();
            proof {
                lemma_reverse_bounded(g.interiors@[i as int].0@, COORD_LIMIT as int);
                assert(iv.take(i + 1).drop_last() =~= iv.take(i as int));
                assert(iv.take(i + 1).last() == iv[i as int]);
            }
            let mut clipped = self.clip_polygon_ring(&ring);
            let ghost before = ring_views(holes@);
            let ghost cv = ring_views(clipped@);
            holes.append(&mut clipped);
            assert(ring_views(holes@) =~= before + cv);
            i = i + 1;
        }
        assert(iv.take(g.interiors.len() as int) =~= iv);
        let ghost hv = ring_views(holes@);
        let mut k: usize = 0;
        assert(hv.take(0) =~= Seq::<Seq<Coord>>::empty());
        while k < holes.len()
            invariant
                self.wf(),
                k <= holes.len(),
                hv == ring_views(holes@),
                polys.len() == polys0.len(),
                polys.len() > 0,
                forall|t: int|
                    0 <= t < polys.len() ==> all_bounded(
                        (#[trigger] polys@[t]).exterior.0@,
                        COORD_LIMIT as int,
                    ),
                polys_view(polys@) == self.place_holes(polys0, hv.take(k as int)),
            decreases holes.len() - k,
        {
            let ghost before = polys_view(polys@);
            proof {
                assert(hv.take(k + 1).drop_last() =~= hv.take(k as int));
                assert(hv.take(k + 1).last() == hv[k as int]);
                assert(hv[k as int] == holes@[k as int].0@);
            }
            if polys.len() == 1 {
                let h = copy_chain(&holes[k]).reverse();
                ClipRect::push_hole(&mut polys, 0, h);
            } else {
                match find_coord_inside(&holes[k], &self.inner) {
                    None => {},
                    Some(c) => {
                        let j = ClipRect::find_containing(&polys, &c);
                        if j < polys.len() {
                            let h = copy_chain(&holes[k]).reverse();
                            ClipRect::push_hole(&mut polys, j, h);
                        }
                    },
                }
            }
            k = k + 1;
        }
        assert(hv.take(holes.len() as int) =~= hv);
        polys
    }
}

pub open spec fn polygon_bounded(p: Polygon) -> bool {
    &&& all_bounded(p.exterior.0@, COORD_LIMIT as int)
    &&& forall|i: int|
        0 <= i < p.interiors.len() ==> all_bounded(
            (#[trigger] p.interiors@[i]).0@,
            COORD_LIMIT as int,
        )
}

/// Every coordinate of the geometry is within the coordinate bound.
pub open spec fn geometry_bounded(g: Geometry) -> bool {
    match g {
        Geometry::Point(c) => c.bounded(COORD_LIMIT as int),
        Geometry::Line(l) => l.bounded(COORD_LIMIT as int),
        Geometry::LineString(ls) => all_bounded(ls.0@, COORD_LIMIT as int),
        Geometry::Polygon(p) => polygon_bounded(p),
        Geometry::MultiPoint(v) => all_bounded(v@, COORD_LIMIT as int),
        Geometry::MultiLineString(v) => forall|i: int|
            0 <= i < v.len() ==> all_bounded((#[trigger] v@[i]).0@, COORD_LIMIT as int),
        Geometry::MultiPolygon(v) => forall|i: int|
            0 <= i < v.len() ==> polygon_bounded(#[trigger] v@[i]),
        _ => true,
    }
}

/// `r` is the result for the chains `cs`: none, one line string, or a
/// multi line string.
pub open spec fn chains_result(cs: Seq<Seq<Coord>>, r: Option<Geometry>) -> bool {
    if cs.len() == 0 {
        r is None
    } else if cs.len() == 1 {
        r matches Some(Geometry::LineString(l)) && l.0@ == cs[0]
    } else {
        r matches Some(Geometry::MultiLineString(w)) && ring_views(w@) == cs
    }
}

/// `r` is the result for the polygons `ps`: none, one polygon, or a multi
/// polygon.
pub open spec fn polygons_result(ps: Seq<PolygonView>, r: Option<Geometry>) -> bool {
    if ps.len() == 0 {
        r is None
    } else if ps.len() == 1 {
        r matches Some(Geometry::Polygon(p)) && poly_view(p) == ps[0]
    } else {
        r matches Some(Geometry::MultiPolygon(w)) && polys_view(w@) == ps
    }
}

impl ClipRect {
    /// The points of `ps` that lie in the window, in order.
    pub open spec fn kept_points(self, ps: Seq<Coord>) -> Seq<Coord>
        decreases ps.len(),
    {
        if ps.len() == 0 {
            ps
        } else {
            let k = self.kept_points(ps.drop_last());
            if self.inner.spec_contains(ps.last()) {
                k.push(ps.last())
            } else {
                k
            }
        }
    }

    /// The clipped chains of every line string of `lss`, in order.
    pub open spec fn clip_all_chains(self, lss: Seq<Seq<Coord>>) -> Seq<Seq<Coord>>
        decreases lss.len(),
    {
        if lss.len() == 0 {
            Seq::empty()
        } else {
            self.clip_all_chains(lss.drop_last()) + self.spec_clip_linestring(lss.last())
        }
    }

    /// The clipped polygons of every polygon of `ps`, in order.
    pub open spec fn clip_all_polygons(self, ps: Seq<PolygonView>) -> Seq<PolygonView>
        decreases ps.len(),
    {
        if ps.len() == 0 {
            Seq::empty()
        } else {
            self.clip_all_polygons(ps.drop_last()) + self.spec_clip_polygon(
                ps.last().0,
                ps.last().1,
            )
        }
    }

    /// What clipping `g` gives: the part of it inside the window, collapsed
    /// to a single part when one is left, or `None` when nothing is left or
    /// the kind of geometry is not supported.
    pub open spec fn clip_result(self, g: Geometry, r: Option<Geometry>) -> bool {
        match g {
            Geometry::Point(p) => r == if self.inner.spec_contains(p) {
                Some(Geometry::Point(p))
            } else {
                None::<Geometry>
            },
            Geometry::Line(l) => r == match self.inner.spec_clip_segment(l) {
                Some(s) => Some(Geometry::Line(s)),
                None => None::<Geometry>,
            },
            Geometry::LineString(ls) => chains_result(self.spec_clip_linestring(ls.0@), r),
            Geometry::Polygon(p) => polygons_result(
                self.spec_clip_polygon(p.exterior.0@, ring_views(p.interiors@)),
                r,
            ),
            Geometry::MultiPoint(ps) => {
                let kept = self.kept_points(ps@);
                if kept.len() == 0 {
                    r is None
                } else {
                    r matches Some(Geometry::MultiPoint(v)) && v@ == kept
                }
            },
            Geometry::MultiLineString(v) => {
                let cs = self.clip_all_chains(ring_views(v@));
                if cs.len() == 0 {
                    r is None
                } else {
                    r matches Some(Geometry::MultiLineString(w)) && ring_views(w@) == cs
                }
            },
            Geometry::MultiPolygon(v) => {
                let ps = self.clip_all_polygons(polys_view(v@));
                if ps.len() == 0 {
                    r is None
                } else {
                    r matches Some(Geometry::MultiPolygon(w)) && polys_view(w@) == ps
                }
            },
            _ => r is None,
        }
    }

    /// Clips a geometry to the window.
    pub fn clip(&self, g: &Geometry) -> (r: Option<Geometry>)
        requires
            self.wf(),
            geometry_bounded(*g),
        ensures
            self.clip_result(*g, r),
    {
        match g {
            Geometry::Point(p) => match self.inner.clip_point(p) {
                Some(q) => Some(Geometry::Point(q)),
                None => None,
            },
            Geometry::Line(l) => match self.inner.clip_segment(l) {
                Some(s) => Some(Geometry::Line(s)),
                None => None,
            },
            Geometry::LineString(ls) => {
                let mut v = self.clip_linestring(ls);
                if v.len() == 0 {
                    None
                } else if v.len() == 1 {
                    let l = v.pop().unwrap();
                    Some(Geometry::LineString(l))
                } else {
                    Some(Geometry::MultiLineString(v))
                }
            },
            Geometry::Polygon(p) => {
                let mut v = self.clip_polygon(p);
                if v.len() == 0 {
                    None
                } else if v.len() == 1 {
                    let q = v.pop().unwrap();
                    Some(Geometry::Polygon(q))
                } else {
                    Some(Geometry::MultiPolygon(v))
                }
            },
            Geometry::MultiPoint(ps) => {
                let ghost pv = ps@;
                let mut kept: Vec<Coord> = Vec::new();
                let mut i: usize = 0;
                while i < ps.len()
                    invariant
                        i <= ps.len(),
                        pv == ps@,
                        kept@ == self.kept_points(pv.take(i as int)),
                    decreases ps.len() - i,
                {
                    assert(pv.take(i + 1).drop_last() =~= pv.take(i as int));
                    assert(pv.take(i + 1).last() == pv[i as int]);
                    if self.inner.contains_coord(&ps[i]) {
                        kept.push(ps[i]);
                    }
                    i = i + 1;
                }
                assert(pv.take(ps.len() as int) =~= pv);
                if kept.len() == 0 {
                    None
                } else {
                    Some(Geometry::MultiPoint(kept))
                }
            },
            Geometry::MultiLineString(lss) => {
                let ghost lv = ring_views(lss@);
                let mut out: Vec<LineString> = Vec::new();
                let mut i: usize = 0;
                assert(ring_views(out@) =~= self.clip_all_chains(lv.take(0)));
                while i < lss.len()
                    invariant
                        self.wf(),
                        i <= lss.len(),
                        lv == ring_views(lss@),
                        forall|k: int|
                            0 <= k < lss.len() ==> all_bounded(
                                (#[trigger] lss@[k]).0@,
                                COORD_LIMIT as int,
                            ),
                        ring_views(out@) == self.clip_all_chains(lv.take(i as int)),
                    decreases lss.len() - i,
                {
                    let ghost before = ring_views(out@);
                    assert(lv.take(i + 1).drop_last() =~= lv.take(i as int));
                    assert(lv.take(i + 1).last() == lss@[i as int].0@);
                    let mut part = self.clip_linestring(&lss[i]);
                    let ghost pv = ring_views(part@);
                    out.append(&mut part);
                    assert(ring_views(out@) =~= before + pv);
                    i = i + 1;
                }
                assert(lv.take(lss.len() as int) =~= lv);
                if out.len() == 0 {
                    None
                } else {
                    Some(Geometry::MultiLineString(out))
                }
            },
            Geometry::MultiPolygon(ps) => {
                let ghost pv = polys_view(ps@);
                let mut out: Vec<Polygon> = Vec::new();
                let mut i: usize = 0;
                assert(polys_view(out@) =~= self.clip_all_polygons(pv.take(0)));
                while i < ps.len()
                    invariant
                        self.wf(),
                        i <= ps.len(),
                        pv == polys_view(ps@),
                        forall|k: int| 0 <= k < ps.len() ==> polygon_bounded(#[trigger] ps@[k]),
                        polys_view(out@) == self.clip_all_polygons(pv.take(i as int)),
                    decreases ps.len() - i,
                {
                    let ghost before = polys_view(out@);
                    assert(pv.take(i + 1).drop_last() =~= pv.take(i as int));
                    assert(pv.take(i + 1).last() == poly_view(ps@[i as int]));
                    assert(polygon_bounded(ps@[i as int]));
                    let mut part = self.clip_polygon(&ps[i]);
                    let ghost qv = polys_view(part@);
                    out.append(&mut part);
                    assert(polys_view(out@) =~= before + qv);
                    i = i + 1;
                }
                assert(pv.take(ps.len() as int) =~= pv);
                if out.len() == 0 {
                    None
                } else {
                    Some(Geometry::MultiPolygon(out))
                }
            },
            _ => None,
        }
    }
}

} // verus!
