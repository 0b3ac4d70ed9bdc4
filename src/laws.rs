use crate::geom::{all_bounded, lines_of, on_segment, spec_intersection, Coord, Line, COORD_LIMIT};
use crate::rect::{first_break, group_runs, rotate, split_offset, Rect};
use crate::stitch::{
    fragments_ok, has_three_distinct, insert_pos, is_closed, lemma_sort_fragments_ok,
    lemma_stitch_rings_ok, proper_rings, rings_ok, sort_desc, stitch,
};
use crate::util::segments_to_coords;
use crate::{chains_of, keep_rings, tag_fragments, ClipRect, PolygonView};
use vstd::prelude::*;

verus! {

/// A segment with both endpoints in the window is returned unchanged.
pub proof fn segment_inside_is_kept(r: Rect, seg: Line)
    requires
        r.wf(),
        r.spec_contains(seg.start),
        r.spec_contains(seg.end),
    ensures
        r.spec_clip_segment(seg) == Some(seg),
{
}

proof fn lemma_clipped_all_kept(r: Rect, segs: Seq<Line>, k: int)
    requires
        0 <= k <= segs.len(),
        forall|i: int|
            0 <= i < segs.len() ==> r.spec_contains((#[trigger] segs[i]).start) && r.spec_contains(
                segs[i].end,
            ),
    ensures
        r.clipped_upto(segs, k) == segs.take(k),
    decreases k,
{
    if k > 0 {
        lemma_clipped_all_kept(r, segs, k - 1);
        assert(segs.take(k) =~= segs.take(k - 1).push(segs[k - 1]));
    }
}

proof fn lemma_first_break_connected(c: Seq<Line>, i: int)
    requires
        0 <= i <= c.len(),
        forall|j: int| 0 <= j < c.len() - 1 ==> (#[trigger] c[j]).end == c[j + 1].start,
    ensures
        first_break(c, i) >= c.len() - 1,
    decreases c.len() - i,
{
    if i < c.len() {
        if i < c.len() - 1 {
            assert(crate::rect::succ(i, c.len() as int) == i + 1);
            assert(c[i].end == c[i + 1].start);
        }
        lemma_first_break_connected(c, i + 1);
    }
}

proof fn lemma_first_break_range(c: Seq<Line>, i: int)
    requires
        0 <= i <= c.len(),
    ensures
        i <= first_break(c, i) <= c.len(),
    decreases c.len() - i,
{
    if i < c.len() {
        lemma_first_break_range(c, i + 1);
    }
}

proof fn lemma_group_runs_connected(s: Seq<Line>)
    requires
        s.len() > 0,
        forall|j: int| 0 <= j < s.len() - 1 ==> (#[trigger] s[j]).end == s[j + 1].start,
    ensures
        group_runs(s) == seq![s],
    decreases s.len(),
{
    let d = s.drop_last();
    if s.len() == 1 {
        assert(group_runs(d) =~= Seq::<Seq<Line>>::empty());
        assert(seq![s.last()] =~= s);
    } else {
        assert forall|j: int| 0 <= j < d.len() - 1 implies (#[trigger] d[j]).end == d[j + 1].start by {
            assert(s[j].end == s[j + 1].start);
        }
        lemma_group_runs_connected(d);
        assert(s[s.len() - 2].end == s[s.len() - 1].start);
        assert(d.push(s.last()) =~= s);
        assert(group_runs(s) =~= seq![s]);
    }
}

proof fn lemma_chain_of_lines(pts: Seq<Coord>)
    requires
        pts.len() >= 2,
    ensures
        segments_to_coords(lines_of(pts)) == pts,
{
    let l = lines_of(pts);
    assert(segments_to_coords(l) =~= pts) by {
        assert(l.last() == l[l.len() - 1]);
    }
}

/// A chain of at least two coordinates that lies in the window comes back
/// whole, as the only piece.
pub proof fn chain_inside_is_kept(c: ClipRect, pts: Seq<Coord>)
    requires
        c.wf(),
        pts.len() >= 2,
        forall|i: int| 0 <= i < pts.len() ==> c.inner.spec_contains(#[trigger] pts[i]),
    ensures
        c.spec_clip_linestring(pts) == seq![pts],
{
    let r = c.inner;
    let l = lines_of(pts);
    assert forall|i: int| 0 <= i < l.len() implies r.spec_contains((#[trigger] l[i]).start)
        && r.spec_contains(l[i].end) by {
        assert(r.spec_contains(pts[i]));
        assert(r.spec_contains(pts[i + 1]));
    }
    lemma_clipped_all_kept(r, l, l.len() as int);
    assert(l.take(l.len() as int) =~= l);
    assert forall|j: int| 0 <= j < l.len() - 1 implies (#[trigger] l[j]).end == l[j + 1].start by {}
    lemma_first_break_connected(l, 0);
    assert(split_offset(l) == 0);
    assert(rotate(l, 0) =~= l);
    lemma_group_runs_connected(l);
    lemma_chain_of_lines(pts);
    assert(chains_of(seq![l]) =~= seq![pts]);
}

/// Keeping rings with three different coordinates keeps rings fit for
/// output, and they are then proper.
proof fn lemma_keep_rings_proper(rs: Seq<Seq<Coord>>)
    requires
        rings_ok(rs),
    ensures
        proper_rings(keep_rings(rs)),
    decreases rs.len(),
{
    if rs.len() > 0 {
        let d = rs.drop_last();
        assert(rings_ok(d)) by {
            assert forall|i: int| 0 <= i < d.len() implies is_closed(#[trigger] d[i])
                && d[i].len() >= 2 && all_bounded(d[i], COORD_LIMIT as int) by {
                assert(d[i] == rs[i]);
            }
        }
        lemma_keep_rings_proper(d);
        assert(rs.last() == rs[rs.len() - 1]);
    }
}

/// Rings that all have three different coordinates are all kept.
proof fn lemma_keep_rings_all(rs: Seq<Seq<Coord>>)
    requires
        forall|i: int| 0 <= i < rs.len() ==> has_three_distinct(#[trigger] rs[i]),
    ensures
        keep_rings(rs) == rs,
    decreases rs.len(),
{
    if rs.len() > 0 {
        let d = rs.drop_last();
        assert forall|i: int| 0 <= i < d.len() implies has_three_distinct(#[trigger] d[i]) by {
            assert(d[i] == rs[i]);
        }
        lemma_keep_rings_all(d);
        assert(rs.last() == rs[rs.len() - 1]);
        assert(d.push(rs.last()) =~= rs);
    }
}

/// A closed ring with three different coordinates that lies in the window
/// comes back unchanged, as the only ring.
pub proof fn ring_inside_is_kept(c: ClipRect, pts: Seq<Coord>)
    requires
        c.wf(),
        pts.len() >= 2,
        pts[0] == pts.last(),
        has_three_distinct(pts),
        forall|i: int| 0 <= i < pts.len() ==> c.inner.spec_contains(#[trigger] pts[i]),
    ensures
        c.spec_clip_polygon_ring(pts) == seq![pts],
{
    let r = c.inner;
    chain_inside_is_kept(c, pts);
    let q = tag_fragments(r, seq![pts]);
    assert(q =~= seq![(r.spec_perimeter_index(pts[0]), pts)]);
    assert(q.drop_last() =~= Seq::<(crate::rect::PerimeterIndex, Seq<Coord>)>::empty());
    assert(insert_pos(sort_desc(q.drop_last()), q.last().0, 0) == 0);
    assert(sort_desc(q) =~= q);
    assert(is_closed(pts));
    assert(q.drop_last().len() == 0);
    assert(stitch(r, q.drop_last(), Seq::<Seq<Coord>>::empty().push(pts)) =~= seq![pts]);
    assert(c.spec_stitch_ring(pts) == seq![pts]);
    lemma_keep_rings_all(seq![pts]);
}

proof fn lemma_no_crossings(r: Rect, seg: Line, k: int)
    requires
        0 <= k <= 4,
        forall|i: int| 0 <= i < 4 ==> spec_intersection(#[trigger] r.side(i), seg) is None,
    ensures
        r.isects_upto(seg, k).len() == 0,
    decreases k,
{
    if k > 0 {
        lemma_no_crossings(r, seg, k - 1);
        assert(spec_intersection(r.side(k - 1), seg) is None);
    }
}

/// A segment that is not inside the window and crosses none of its sides
/// leaves nothing.
pub proof fn segment_outside_is_dropped(r: Rect, seg: Line)
    requires
        r.wf(),
        !(r.spec_contains(seg.start) && r.spec_contains(seg.end)),
        forall|i: int| 0 <= i < 4 ==> spec_intersection(#[trigger] r.side(i), seg) is None,
    ensures
        r.spec_clip_segment(seg) is None,
{
    lemma_no_crossings(r, seg, 4);
}

proof fn lemma_clipped_none(r: Rect, segs: Seq<Line>, k: int)
    requires
        0 <= k <= segs.len(),
        forall|i: int| 0 <= i < segs.len() ==> r.spec_clip_segment(#[trigger] segs[i]) is None,
    ensures
        r.clipped_upto(segs, k).len() == 0,
    decreases k,
{
    if k > 0 {
        lemma_clipped_none(r, segs, k - 1);
        assert(r.spec_clip_segment(segs[k - 1]) is None);
    }
}

/// The window's center is one of its points.
proof fn lemma_center_in_window(r: Rect)
    requires
        r.wf(),
    ensures
        r.spec_contains(r.center()),
{
}

/// A ring from which no clipped piece is left, and whose inside (by the
/// even-odd rule) holds no point of the window, leaves nothing.
pub proof fn ring_outside_is_dropped(c: ClipRect, pts: Seq<Coord>)
    requires
        c.wf(),
        c.inner.spec_clip_segments(lines_of(pts)).len() == 0,
        forall|p: Coord| c.inner.spec_contains(p) ==> !crate::geom::spec_is_inside(p, pts),
    ensures
        c.spec_clip_polygon_ring(pts).len() == 0,
{
    lemma_center_in_window(c.inner);
    assert(c.spec_stitch_ring(pts) =~= Seq::<Seq<Coord>>::empty());
}

/// The window's boundary ring has at least three different coordinates.
proof fn lemma_boundary_proper(r: Rect)
    requires
        r.wf(),
        r.x0 < r.x1,
        r.y0 < r.y1,
    ensures
        has_three_distinct(r.boundary_ring()),
{
    let b = r.boundary_ring();
    assert(b[1] != b[0] && b[2] != b[0] && b[2] != b[1]);
}

/// A ring from which no clipped piece is left, and whose inside (by the
/// even-odd rule) holds every point of the window, gives the window's
/// boundary as its only ring; as a polygon without holes it gives the
/// window itself.
pub proof fn window_inside_ring_is_returned(c: ClipRect, pts: Seq<Coord>)
    requires
        c.wf(),
        c.inner.x0 < c.inner.x1,
        c.inner.y0 < c.inner.y1,
        c.inner.spec_clip_segments(lines_of(pts)).len() == 0,
        forall|p: Coord| c.inner.spec_contains(p) ==> crate::geom::spec_is_inside(p, pts),
    ensures
        c.spec_clip_polygon_ring(pts) == seq![c.inner.boundary_ring()],
        c.spec_clip_polygon(pts, Seq::empty()) == seq![
            (c.inner.boundary_ring(), Seq::<Seq<Coord>>::empty()),
        ],
{
    lemma_center_in_window(c.inner);
    let rings = seq![c.inner.boundary_ring()];
    assert(c.spec_stitch_ring(pts) == rings);
    lemma_boundary_proper(c.inner);
    lemma_keep_rings_all(rings);
    let polys: Seq<PolygonView> = rings.map_values(
        |e: Seq<Coord>| (e, Seq::<Seq<Coord>>::empty()),
    );
    assert(polys =~= seq![(c.inner.boundary_ring(), Seq::<Seq<Coord>>::empty())]);
    assert(c.hole_rings(Seq::empty()) =~= Seq::<Seq<Coord>>::empty());
}

proof fn lemma_graze_points(r: Rect, seg: Line, corner: Coord, k: int)
    requires
        0 <= k <= 4,
        forall|i: int|
            0 <= i < 4 ==> #[trigger] spec_intersection(r.side(i), seg) is None || spec_intersection(
                r.side(i),
                seg,
            ) == Some(corner),
    ensures
        r.isects_upto(seg, k).len() <= 1,
        forall|i: int|
            0 <= i < r.isects_upto(seg, k).len() ==> #[trigger] r.isects_upto(seg, k)[i] == corner,
    decreases k,
{
    if k > 0 {
        lemma_graze_points(r, seg, corner, k - 1);
        let acc = r.isects_upto(seg, k - 1);
        assert(spec_intersection(r.side(k - 1), seg) is None || spec_intersection(
            r.side(k - 1),
            seg,
        ) == Some(corner));
        if acc.len() == 1 {
            assert(acc[0] == corner);
            assert(acc.contains(corner));
        }
    }
}

/// A segment with both endpoints outside the window whose only contact with
/// the window is one of its corners leaves nothing.
pub proof fn corner_graze_is_dropped(r: Rect, seg: Line, k: int)
    requires
        r.wf(),
        0 <= k < 4,
        !r.spec_contains(seg.start),
        !r.spec_contains(seg.end),
        forall|i: int|
            0 <= i < 4 ==> #[trigger] spec_intersection(r.side(i), seg) is None || spec_intersection(
                r.side(i),
                seg,
            ) == Some(r.corner(k)),
    ensures
        r.spec_clip_segment(seg) is None,
{
    lemma_graze_points(r, seg, r.corner(k), 4);
    let pts = r.isects_upto(seg, 4);
    if pts.len() == 1 {
        assert(pts[0] == r.corner(k));
        assert(r.spec_is_corner(pts[0]));
    }
}

proof fn lemma_clip_segment_bounded(r: Rect, seg: Line)
    requires
        r.wf(),
        seg.bounded(COORD_LIMIT as int),
    ensures
        r.spec_clip_segment(seg) matches Some(l) ==> l.bounded(COORD_LIMIT as int),
{
    r.lemma_isects_bounded(seg, 4);
    let pts = r.isects_upto(seg, 4);
    if pts.len() >= 2 {
        assert(pts[0].bounded(COORD_LIMIT as int));
        assert(pts[1].bounded(COORD_LIMIT as int));
    } else if pts.len() == 1 {
        assert(pts[0].bounded(COORD_LIMIT as int));
    }
}

proof fn lemma_clipped_bounded(r: Rect, segs: Seq<Line>, k: int)
    requires
        r.wf(),
        0 <= k <= segs.len(),
        forall|i: int| 0 <= i < segs.len() ==> (#[trigger] segs[i]).bounded(COORD_LIMIT as int),
    ensures
        forall|i: int|
            0 <= i < r.clipped_upto(segs, k).len() ==> (#[trigger] r.clipped_upto(
                segs,
                k,
            )[i]).bounded(COORD_LIMIT as int),
    decreases k,
{
    if k > 0 {
        lemma_clipped_bounded(r, segs, k - 1);
        lemma_clip_segment_bounded(r, segs[k - 1]);
        let acc = r.clipped_upto(segs, k - 1);
        let cur = r.clipped_upto(segs, k);
        assert forall|i: int| 0 <= i < cur.len() implies (#[trigger] cur[i]).bounded(
            COORD_LIMIT as int,
        ) by {
            if i < acc.len() {
                assert(cur[i] == acc[i]);
            }
        }
    }
}

/// Runs are never empty and keep their segments bounded.
proof fn lemma_group_runs_bounded(s: Seq<Line>)
    requires
        forall|i: int| 0 <= i < s.len() ==> (#[trigger] s[i]).bounded(COORD_LIMIT as int),
    ensures
        forall|g: int|
            0 <= g < group_runs(s).len() ==> (#[trigger] group_runs(s)[g]).len() > 0 && forall|
                j: int,
            |
                0 <= j < group_runs(s)[g].len() ==> (#[trigger] group_runs(s)[g][j]).bounded(
                    COORD_LIMIT as int,
                ),
    decreases s.len(),
{
    if s.len() > 0 {
        let d = s.drop_last();
        assert forall|i: int| 0 <= i < d.len() implies (#[trigger] d[i]).bounded(
            COORD_LIMIT as int,
        ) by {
            assert(d[i] == s[i]);
        }
        lemma_group_runs_bounded(d);
        assert(s.last() == s[s.len() - 1]);
        let g = group_runs(d);
        let x = s.last();
        let res = group_runs(s);
        if g.len() > 0 && g.last().last().end == x.start {
            assert(g.last() == g[g.len() - 1]);
            assert forall|k: int| 0 <= k < res.len() implies (#[trigger] res[k]).len() > 0 && forall|
                j: int,
            | 0 <= j < res[k].len() ==> (#[trigger] res[k][j]).bounded(COORD_LIMIT as int) by {
                if k < g.len() - 1 {
                    assert(res[k] == g[k]);
                } else {
                    assert(res[k] == g[g.len() - 1].push(x));
                    assert forall|j: int| 0 <= j < res[k].len() implies (#[trigger] res[k][j]).bounded(
                        COORD_LIMIT as int,
                    ) by {
                        if j < g[g.len() - 1].len() {
                            assert(res[k][j] == g[g.len() - 1][j]);
                        }
                    }
                }
            }
        } else {
            assert forall|k: int| 0 <= k < res.len() implies (#[trigger] res[k]).len() > 0 && forall|
                j: int,
            | 0 <= j < res[k].len() ==> (#[trigger] res[k][j]).bounded(COORD_LIMIT as int) by {
                if k < g.len() {
                    assert(res[k] == g[k]);
                } else {
                    assert(res[k] == seq![x]);
                }
            }
        }
    }
}

proof fn lemma_chains_ok(r: Rect, pts: Seq<Coord>)
    requires
        r.wf(),
        all_bounded(pts, COORD_LIMIT as int),
    ensures
        forall|i: int|
            0 <= i < chains_of(r.spec_clip_segments(lines_of(pts))).len() ==> (#[trigger] chains_of(
                r.spec_clip_segments(lines_of(pts)),
            )[i]).len() >= 2 && all_bounded(
                chains_of(r.spec_clip_segments(lines_of(pts)))[i],
                COORD_LIMIT as int,
            ),
{
    let l = lines_of(pts);
    crate::geom::lemma_lines_bounded(pts, COORD_LIMIT as int);
    lemma_clipped_bounded(r, l, l.len() as int);
    let c = r.clipped_upto(l, l.len() as int);
    if c.len() > 0 {
        let off = split_offset(c);
        lemma_first_break_range(c, 0);
        assert(0 <= off < c.len());
        let rot = rotate(c, off);
        assert forall|i: int| 0 <= i < rot.len() implies (#[trigger] rot[i]).bounded(
            COORD_LIMIT as int,
        ) by {
            if i < c.len() - off {
                assert(rot[i] == c[off + i]);
            } else {
                assert(rot[i] == c[i - (c.len() - off)]);
            }
        }
        lemma_group_runs_bounded(rot);
        let gs = group_runs(rot);
        let cs = chains_of(gs);
        assert forall|i: int| 0 <= i < cs.len() implies (#[trigger] cs[i]).len() >= 2
            && all_bounded(cs[i], COORD_LIMIT as int) by {
            let g = gs[i];
            assert(cs[i] == segments_to_coords(g));
            assert forall|k: int| 0 <= k < cs[i].len() implies #[trigger] cs[i][k].bounded(
                COORD_LIMIT as int,
            ) by {
                if k < g.len() {
                    assert(g[k].bounded(COORD_LIMIT as int));
                } else {
                    assert(g[g.len() - 1].bounded(COORD_LIMIT as int));
                }
            }
        }
    }
}

/// Every ring that clipping a ring gives is closed, has at least three
/// different coordinates, and stays within the coordinate bound.
pub proof fn clipped_rings_are_closed(c: ClipRect, pts: Seq<Coord>)
    requires
        c.wf(),
        all_bounded(pts, COORD_LIMIT as int),
    ensures
        proper_rings(c.spec_clip_polygon_ring(pts)),
{
    lemma_stitched_rings_ok(c, pts);
    lemma_keep_rings_proper(c.spec_stitch_ring(pts));
}

proof fn lemma_stitched_rings_ok(c: ClipRect, pts: Seq<Coord>)
    requires
        c.wf(),
        all_bounded(pts, COORD_LIMIT as int),
    ensures
        rings_ok(c.spec_stitch_ring(pts)),
{
    let r = c.inner;
    let chains = c.spec_clip_linestring(pts);
    if chains.len() == 0 {
        let b = r.boundary_ring();
        assert(b[0] == b.last());
        assert(all_bounded(b, COORD_LIMIT as int));
        let out = seq![b];
        assert(out[0] == b);
    } else {
        lemma_chains_ok(r, pts);
        let q = tag_fragments(r, chains);
        assert(fragments_ok(q)) by {
            assert forall|i: int| 0 <= i < q.len() implies (#[trigger] q[i]).0.side <= 4
                && q[i].1.len() >= 2 && all_bounded(q[i].1, COORD_LIMIT as int) by {
                assert(q[i].1 == chains[i]);
            }
        }
        lemma_sort_fragments_ok(q);
        lemma_stitch_rings_ok(r, sort_desc(q), Seq::empty());
    }
}

/// Length of side `i` of the window.
pub open spec fn side_len(r: Rect, i: int) -> int {
    if i % 2 == 0 {
        r.y1 - r.y0
    } else {
        r.x1 - r.x0
    }
}

/// Distance walked clockwise from `(x0, y0)` to the first corner of side
/// `i`.
pub open spec fn side_start(r: Rect, i: int) -> int {
    if i <= 0 {
        0
    } else if i == 1 {
        r.y1 - r.y0
    } else if i == 2 {
        (r.y1 - r.y0) + (r.x1 - r.x0)
    } else {
        2 * (r.y1 - r.y0) + (r.x1 - r.x0)
    }
}

pub open spec fn perimeter(r: Rect) -> int {
    2 * (r.x1 - r.x0) + 2 * (r.y1 - r.y0)
}

/// Distance walked clockwise from `(x0, y0)` to the point `p` of side `i`.
pub open spec fn walk_distance(r: Rect, i: int, p: Coord) -> int {
    side_start(r, i) + p.spec_manhattan_dist(r.corner(i))
}

/// Where a boundary point sits in the walk, read from its perimeter index.
proof fn lemma_index_of_walk(r: Rect, i: int, p: Coord)
    requires
        r.wf(),
        r.x0 < r.x1,
        r.y0 < r.y1,
        0 <= i < 4,
        on_segment(p, r.side(i)),
        walk_distance(r, i, p) < perimeter(r),
    ensures
        r.spec_perimeter_index(p).side < 4,
        0 <= r.spec_perimeter_index(p).offset < side_len(r, r.spec_perimeter_index(p).side as int),
        side_start(r, r.spec_perimeter_index(p).side as int) + r.spec_perimeter_index(p).offset
            == walk_distance(r, i, p),
{
}

/// Walking clockwise around the boundary from `(x0, y0)`, the
/// perimeter index grows with the distance walked, and stays below side 4.
#[verifier::rlimit(50)]
pub proof fn perimeter_index_follows_walk(r: Rect, i: int, p: Coord, j: int, q: Coord)
    requires
        r.wf(),
        r.x0 < r.x1,
        r.y0 < r.y1,
        0 <= i < 4,
        0 <= j < 4,
        on_segment(p, r.side(i)),
        on_segment(q, r.side(j)),
        walk_distance(r, i, p) < perimeter(r),
        walk_distance(r, j, q) < perimeter(r),
    ensures
        r.spec_perimeter_index(p).side < 4,
        walk_distance(r, i, p) < walk_distance(r, j, q) ==> r.spec_perimeter_index(p).spec_lt(
            r.spec_perimeter_index(q),
        ),
        walk_distance(r, i, p) == walk_distance(r, j, q) ==> r.spec_perimeter_index(p)
            == r.spec_perimeter_index(q),
{
    lemma_index_of_walk(r, i, p);
    lemma_index_of_walk(r, j, q);
}

/// The walk starts at index zero, at the corner `(x0, y0)`.
pub proof fn perimeter_index_starts_at_zero(r: Rect)
    requires
        r.wf(),
        r.y0 < r.y1,
    ensures
        r.spec_perimeter_index(r.corner(0)) == (crate::rect::PerimeterIndex { side: 0, offset: 0 }),
{
}

/// `v` lies between `p` and `q`, in either order.
pub open spec fn between(v: int, p: int, q: int) -> bool {
    (p <= v && v <= q) || (q <= v && v <= p)
}

proof fn lemma_neg_mul(a: int, b: int) by (nonlinear_arith)
    ensures
        a * (-b) == -(a * b),
        (-a) * b == -(a * b),
{
}

proof fn lemma_mul_le_pos(a: int, b: int, d: int) by (nonlinear_arith)
    requires
        a <= b,
        d > 0,
    ensures
        a * d <= b * d,
{
}

/// The crossing test of a vertical segment, restated over two cross
/// products: `b`'s ends lie strictly on either side of `a`'s line, and the
/// cross product at `a`'s line lies between those at `a`'s ends.
proof fn lemma_cross_vertical_iff(a: Line, b: Line)
    requires
        a.spec_is_vertical(),
    ensures
        (crate::geom::spec_cross_vertical(a, b) is Some) == (((b.start.x < a.start.x && a.start.x
            < b.end.x) || (b.end.x < a.start.x && a.start.x < b.start.x)) && between(
            (a.start.x - b.start.x) * (b.end.y - b.start.y),
            (crate::geom::min_of(a.start.y as int, a.end.y as int) - b.start.y) * (b.end.x
                - b.start.x),
            (crate::geom::max_of(a.start.y as int, a.end.y as int) - b.start.y) * (b.end.x
                - b.start.x),
        )),
{
    let dx_c = a.start.x - b.start.x;
    let dx_b = b.end.x - b.start.x;
    let dy_b = b.end.y - b.start.y;
    let lo = crate::geom::min_of(a.start.y as int, a.end.y as int) - b.start.y;
    let hi = crate::geom::max_of(a.start.y as int, a.end.y as int) - b.start.y;
    assert(lo <= hi);
    lemma_neg_mul(dx_c, dy_b);
    lemma_neg_mul(lo, dx_b);
    lemma_neg_mul(hi, dx_b);
    if dx_b > 0 {
        lemma_mul_le_pos(lo, hi, dx_b);
    } else if dx_b < 0 {
        lemma_mul_le_pos(lo, hi, -dx_b);
    }
}

/// When the cross product at `a`'s line equals the one at height `y`, the
/// crossing point is exactly at height `y`.
proof fn lemma_cross_vertical_exact(a: Line, b: Line, y: i64)
    requires
        a.spec_is_vertical(),
        crate::geom::spec_cross_vertical(a, b) is Some,
        (a.start.x - b.start.x) * (b.end.y - b.start.y) == (y - b.start.y) * (b.end.x - b.start.x),
    ensures
        crate::geom::spec_cross_vertical(a, b)->0.y == y,
        crate::geom::spec_cross_vertical(a, b)->0.x == a.start.x,
{
    let dx_c = a.start.x - b.start.x;
    let dx_b = b.end.x - b.start.x;
    let dy_b = b.end.y - b.start.y;
    let k = y - b.start.y;
    lemma_neg_mul(k, dx_b);
    if dx_b > 0 {
        crate::geom::lemma_trunc_div_within(dx_c * dy_b, dx_b, k, k);
    } else {
        crate::geom::lemma_trunc_div_within(-(dx_c * dy_b), -dx_b, k, k);
    }
}

/// The two products whose comparison tells on which side of the line through
/// `s` and `e` a point lies: `cross_at_x` for the vertical line `x`,
/// `cross_at_y` for the horizontal line `y`.
pub open spec fn cross_at_x(s: Coord, e: Coord, x: int) -> int {
    (x - s.x) * (e.y - s.y)
}

pub open spec fn cross_at_y(s: Coord, e: Coord, y: int) -> int {
    (y - s.y) * (e.x - s.x)
}

/// Which sides a segment crosses, when it ends strictly inside the window.
proof fn lemma_side_crossings(r: Rect, seg: Line)
    requires
        r.wf(),
        r.x0 < seg.end.x < r.x1,
        r.y0 < seg.end.y < r.y1,
    ensures
        (spec_intersection(r.side(0), seg) is Some) == (seg.start.x < r.x0 && between(
            cross_at_x(seg.start, seg.end, r.x0 as int),
            cross_at_y(seg.start, seg.end, r.y0 as int),
            cross_at_y(seg.start, seg.end, r.y1 as int),
        )),
        (spec_intersection(r.side(2), seg) is Some) == (seg.start.x > r.x1 && between(
            cross_at_x(seg.start, seg.end, r.x1 as int),
            cross_at_y(seg.start, seg.end, r.y0 as int),
            cross_at_y(seg.start, seg.end, r.y1 as int),
        )),
        (spec_intersection(r.side(3), seg) is Some) == (seg.start.y < r.y0 && between(
            cross_at_y(seg.start, seg.end, r.y0 as int),
            cross_at_x(seg.start, seg.end, r.x0 as int),
            cross_at_x(seg.start, seg.end, r.x1 as int),
        )),
        (spec_intersection(r.side(1), seg) is Some) == (seg.start.y > r.y1 && between(
            cross_at_y(seg.start, seg.end, r.y1 as int),
            cross_at_x(seg.start, seg.end, r.x0 as int),
            cross_at_x(seg.start, seg.end, r.x1 as int),
        )),
{
    lemma_cross_vertical_iff(r.side(0), seg);
    lemma_cross_vertical_iff(r.side(2), seg);
    lemma_cross_vertical_iff(r.side(1).spec_swap_axes(), seg.spec_swap_axes());
    lemma_cross_vertical_iff(r.side(3).spec_swap_axes(), seg.spec_swap_axes());
}

proof fn lemma_cross_diff(s: Coord, e: Coord, x: int, y: int) by (nonlinear_arith)
    ensures
        cross_at_x(s, e, x) - cross_at_y(s, e, y) == (x - s.x) * (e.y - y) - (y - s.y) * (e.x - x),
{
}

proof fn lemma_sign_mul(a: int, b: int) by (nonlinear_arith)
    ensures
        a > 0 && b > 0 ==> a * b > 0,
        a < 0 && b < 0 ==> a * b > 0,
        a > 0 && b < 0 ==> a * b < 0,
        a < 0 && b > 0 ==> a * b < 0,
        a >= 0 && b >= 0 ==> a * b >= 0,
        a <= 0 && b <= 0 ==> a * b >= 0,
        a >= 0 && b <= 0 ==> a * b <= 0,
        a <= 0 && b >= 0 ==> a * b <= 0,
{
}

/// The differences of the cross products at the window's lines, as products
/// of coordinate differences whose signs are known.
proof fn lemma_cross_facts(r: Rect, s: Coord, e: Coord)
    ensures
        cross_at_x(s, e, r.x0 as int) - cross_at_y(s, e, r.y0 as int) == (r.x0 - s.x) * (e.y
            - r.y0) - (r.y0 - s.y) * (e.x - r.x0),
        cross_at_x(s, e, r.x0 as int) - cross_at_y(s, e, r.y1 as int) == (r.x0 - s.x) * (e.y
            - r.y1) - (r.y1 - s.y) * (e.x - r.x0),
        cross_at_x(s, e, r.x1 as int) - cross_at_y(s, e, r.y0 as int) == (r.x1 - s.x) * (e.y
            - r.y0) - (r.y0 - s.y) * (e.x - r.x1),
        cross_at_x(s, e, r.x1 as int) - cross_at_y(s, e, r.y1 as int) == (r.x1 - s.x) * (e.y
            - r.y1) - (r.y1 - s.y) * (e.x - r.x1),
{
    lemma_cross_diff(s, e, r.x0 as int, r.y0 as int);
    lemma_cross_diff(s, e, r.x0 as int, r.y1 as int);
    lemma_cross_diff(s, e, r.x1 as int, r.y0 as int);
    lemma_cross_diff(s, e, r.x1 as int, r.y1 as int);
}

proof fn lemma_cross_signs(r: Rect, s: Coord, e: Coord)
    ensures
        ({
            let xs0 = r.x0 - s.x;
            let xs1 = r.x1 - s.x;
            let ys0 = r.y0 - s.y;
            let ys1 = r.y1 - s.y;
            let ey0 = e.y - r.y0;
            let ey1 = e.y - r.y1;
            let ex0 = e.x - r.x0;
            let ex1 = e.x - r.x1;
            &&& (xs0 > 0 && ey0 > 0 ==> xs0 * ey0 > 0) && (xs0 <= 0 && ey0 > 0 ==> xs0 * ey0 <= 0)
                && (xs0 < 0 && ey0 > 0 ==> xs0 * ey0 < 0)
            &&& (xs0 > 0 && ey1 < 0 ==> xs0 * ey1 < 0) && (xs0 <= 0 && ey1 < 0 ==> xs0 * ey1 >= 0)
                && (xs0 < 0 && ey1 < 0 ==> xs0 * ey1 > 0)
            &&& (xs1 > 0 && ey0 > 0 ==> xs1 * ey0 > 0) && (xs1 >= 0 && ey0 > 0 ==> xs1 * ey0 >= 0)
                && (xs1 < 0 && ey0 > 0 ==> xs1 * ey0 < 0)
            &&& (xs1 > 0 && ey1 < 0 ==> xs1 * ey1 < 0) && (xs1 >= 0 && ey1 < 0 ==> xs1 * ey1 <= 0)
                && (xs1 < 0 && ey1 < 0 ==> xs1 * ey1 > 0)
            &&& (ys0 > 0 && ex0 > 0 ==> ys0 * ex0 > 0) && (ys0 <= 0 && ex0 > 0 ==> ys0 * ex0 <= 0)
            &&& (ys0 > 0 && ex1 < 0 ==> ys0 * ex1 < 0) && (ys0 <= 0 && ex1 < 0 ==> ys0 * ex1 >= 0)
            &&& (ys1 < 0 && ex0 > 0 ==> ys1 * ex0 < 0) && (ys1 >= 0 && ex0 > 0 ==> ys1 * ex0 >= 0)
            &&& (ys1 < 0 && ex1 < 0 ==> ys1 * ex1 > 0) && (ys1 >= 0 && ex1 < 0 ==> ys1 * ex1 <= 0)
        }),
{
    lemma_sign_mul(r.x0 - s.x, e.y - r.y0);
    lemma_sign_mul(r.x0 - s.x, e.y - r.y1);
    lemma_sign_mul(r.x1 - s.x, e.y - r.y0);
    lemma_sign_mul(r.x1 - s.x, e.y - r.y1);
    lemma_sign_mul(r.y0 - s.y, e.x - r.x0);
    lemma_sign_mul(r.y0 - s.y, e.x - r.x1);
    lemma_sign_mul(r.y1 - s.y, e.x - r.x0);
    lemma_sign_mul(r.y1 - s.y, e.x - r.x1);
}

/// With the end strictly inside, two sides can both be crossed only at the
/// corner they share, and at least one side is crossed when the start is
/// outside.
proof fn lemma_entering_crossings(r: Rect, seg: Line)
    requires
        r.wf(),
        r.x0 < seg.end.x < r.x1,
        r.y0 < seg.end.y < r.y1,
        !r.spec_contains(seg.start),
    ensures
        exists|k: int| 0 <= k < 4 && #[trigger] spec_intersection(r.side(k), seg) is Some,
        forall|i: int, j: int|
            0 <= i < 4 && 0 <= j < 4 && #[trigger] spec_intersection(r.side(i), seg) is Some
                && #[trigger] spec_intersection(r.side(j), seg) is Some ==> spec_intersection(
                r.side(i),
                seg,
            ) == spec_intersection(r.side(j), seg),
{
    let s = seg.start;
    let e = seg.end;
    lemma_side_crossings(r, seg);
    lemma_cross_facts(r, s, e);
    lemma_cross_signs(r, s, e);
    let cx0 = cross_at_x(s, e, r.x0 as int);
    let cx1 = cross_at_x(s, e, r.x1 as int);
    let cy0 = cross_at_y(s, e, r.y0 as int);
    let cy1 = cross_at_y(s, e, r.y1 as int);
    let left = spec_intersection(r.side(0), seg);
    let top = spec_intersection(r.side(1), seg);
    let right = spec_intersection(r.side(2), seg);
    let bottom = spec_intersection(r.side(3), seg);
    assert(r.side(0).spec_is_vertical() && r.side(2).spec_is_vertical());
    assert(!r.side(1).spec_is_vertical() && !r.side(3).spec_is_vertical());
    // at least one side is crossed
    if s.x < r.x0 {
        if !(left is Some) {
            assert(top is Some || bottom is Some);
        }
    } else if s.x > r.x1 {
        if !(right is Some) {
            assert(top is Some || bottom is Some);
        }
    } else if s.y < r.y0 {
        assert(bottom is Some);
    } else {
        assert(top is Some);
    }
    assert(left is Some || top is Some || right is Some || bottom is Some);
    if left is Some {
        assert(spec_intersection(r.side(0), seg) is Some);
    } else if top is Some {
        assert(spec_intersection(r.side(1), seg) is Some);
    } else if right is Some {
        assert(spec_intersection(r.side(2), seg) is Some);
    } else {
        assert(spec_intersection(r.side(3), seg) is Some);
    }
    // two sides crossed meet at their shared corner
    let sw = seg.spec_swap_axes();
    if left is Some && bottom is Some {
        assert(cx0 == cy0);
        lemma_cross_vertical_exact(r.side(0), seg, r.y0);
        lemma_cross_vertical_exact(r.side(3).spec_swap_axes(), sw, r.x0);
    }
    if left is Some && top is Some {
        assert(cx0 == cy1);
        lemma_cross_vertical_exact(r.side(0), seg, r.y1);
        lemma_cross_vertical_exact(r.side(1).spec_swap_axes(), sw, r.x0);
    }
    if right is Some && bottom is Some {
        assert(cx1 == cy0);
        lemma_cross_vertical_exact(r.side(2), seg, r.y0);
        lemma_cross_vertical_exact(r.side(3).spec_swap_axes(), sw, r.x1);
    }
    if right is Some && top is Some {
        assert(cx1 == cy1);
        lemma_cross_vertical_exact(r.side(2), seg, r.y1);
        lemma_cross_vertical_exact(r.side(1).spec_swap_axes(), sw, r.x1);
    }
}

proof fn lemma_isects_contains(r: Rect, seg: Line, k: int)
    requires
        0 <= k <= 4,
    ensures
        forall|j: int|
            0 <= j < k && (#[trigger] spec_intersection(r.side(j), seg)) is Some ==> r.isects_upto(
                seg,
                k,
            ).contains(spec_intersection(r.side(j), seg)->0),
    decreases k,
{
    if k > 0 {
        lemma_isects_contains(r, seg, k - 1);
        let acc = r.isects_upto(seg, k - 1);
        assert forall|j: int|
            0 <= j < k && (#[trigger] spec_intersection(r.side(j), seg)) is Some implies r.isects_upto(
            seg,
            k,
        ).contains(spec_intersection(r.side(j), seg)->0) by {
            let p = spec_intersection(r.side(j), seg)->0;
            if j < k - 1 {
                assert(acc.contains(p));
                if let Some(q) = spec_intersection(r.side(k - 1), seg) {
                    if !acc.contains(q) {
                        let i = choose|i: int| 0 <= i < acc.len() && acc[i] == p;
                        assert(acc.push(q)[i] == p);
                    }
                }
            } else {
                if !acc.contains(p) {
                    assert(acc.push(p)[acc.len() as int] == p);
                }
            }
        }
    }
}

/// A segment from a start outside the window to an end strictly inside it
/// meets the boundary at one point `I`: `I` is the only distinct point where
/// it crosses a side, and lies on that side. The segment is clipped to the
/// piece from `I` to its own end, so the piece runs in the segment's
/// direction.
pub proof fn entering_segment_keeps_direction(r: Rect, seg: Line)
    requires
        r.wf(),
        seg.bounded(COORD_LIMIT as int),
        !r.spec_contains(seg.start),
        r.x0 < seg.end.x < r.x1,
        r.y0 < seg.end.y < r.y1,
    ensures
        r.isects_upto(seg, 4).len() == 1,
        r.spec_clip_segment(seg) == Some(Line { start: r.isects_upto(seg, 4)[0], end: seg.end }),
        exists|i: int|
            0 <= i < 4 && spec_intersection(#[trigger] r.side(i), seg) == Some(
                r.isects_upto(seg, 4)[0],
            ) && on_segment(r.isects_upto(seg, 4)[0], r.side(i)),
{
    lemma_entering_crossings(r, seg);
    let k = choose|k: int| 0 <= k < 4 && #[trigger] spec_intersection(r.side(k), seg) is Some;
    let p = spec_intersection(r.side(k), seg)->0;
    assert forall|i: int| 0 <= i < 4 implies #[trigger] spec_intersection(r.side(i), seg) is None
        || spec_intersection(r.side(i), seg) == Some(p) by {
        if spec_intersection(r.side(i), seg) is Some {
            assert(spec_intersection(r.side(k), seg) is Some);
        }
    }
    lemma_graze_points(r, seg, p, 4);
    lemma_isects_contains(r, seg, 4);
    let pts = r.isects_upto(seg, 4);
    assert(pts.contains(p));
    assert(pts[0] == p);
    crate::geom::lemma_intersection_on_segment(r.side(k), seg);
    assert(spec_intersection(r.side(k), seg) == Some(pts[0]));
}

/// `v0 + (num / den) * (v1 - v0)` lies in `[lo, hi]`, compared after
/// multiplying by `den`.
pub open spec fn scaled_within(v0: int, v1: int, num: int, den: int, lo: int, hi: int) -> bool {
    lo * den <= v0 * den + num * (v1 - v0) <= hi * den
}

/// The point of `seg` at the fraction `num / den` of its length lies in the
/// closed window.
pub open spec fn point_in_window(r: Rect, seg: Line, num: int, den: int) -> bool {
    &&& 0 < den
    &&& 0 <= num <= den
    &&& scaled_within(seg.start.x as int, seg.end.x as int, num, den, r.x0 as int, r.x1 as int)
    &&& scaled_within(seg.start.y as int, seg.end.y as int, num, den, r.y0 as int, r.y1 as int)
}

/// The point of `seg` at the fraction `num / den` of its length is `c`.
pub open spec fn point_is(seg: Line, num: int, den: int, c: Coord) -> bool {
    &&& seg.start.x * den + num * (seg.end.x - seg.start.x) == c.x * den
    &&& seg.start.y * den + num * (seg.end.y - seg.start.y) == c.y * den
}

/// Fraction of `b` at which it meets the vertical segment `a`.
pub open spec fn cross_num(a: Line, b: Line) -> int {
    crate::geom::magnitude(a.start.x - b.start.x)
}

pub open spec fn cross_den(a: Line, b: Line) -> int {
    crate::geom::magnitude(b.end.x - b.start.x)
}

proof fn lemma_mul_distrib(a: int, b: int, d: int) by (nonlinear_arith)
    ensures
        (a - b) * d == a * d - b * d,
        (a + b) * d == a * d + b * d,
        a * (-d) == -(a * d),
{
}

/// Where `b` crosses the vertical `a`, the crossing is the point of `b` at
/// the fraction `cross_num / cross_den`, which lies on `a`.
proof fn lemma_cross_vertical_point(a: Line, b: Line)
    requires
        a.spec_is_vertical(),
        crate::geom::spec_cross_vertical(a, b) is Some,
    ensures
        0 < cross_num(a, b) < cross_den(a, b),
        scaled_within(
            b.start.x as int,
            b.end.x as int,
            cross_num(a, b),
            cross_den(a, b),
            a.start.x as int,
            a.start.x as int,
        ),
        scaled_within(
            b.start.y as int,
            b.end.y as int,
            cross_num(a, b),
            cross_den(a, b),
            crate::geom::min_of(a.start.y as int, a.end.y as int),
            crate::geom::max_of(a.start.y as int, a.end.y as int),
        ),
{
    let dx_c = a.start.x - b.start.x;
    let dx_b = b.end.x - b.start.x;
    let dy_b = b.end.y - b.start.y;
    let lo = crate::geom::min_of(a.start.y as int, a.end.y as int);
    let hi = crate::geom::max_of(a.start.y as int, a.end.y as int);
    let sy = b.start.y as int;
    let sx = b.start.x as int;
    lemma_mul_distrib(lo, sy, dx_b);
    lemma_mul_distrib(hi, sy, dx_b);
    lemma_mul_distrib(lo - sy, 0, dx_b);
    lemma_mul_distrib(hi - sy, 0, dx_b);
    lemma_mul_distrib(sy, 0, dx_b);
    lemma_mul_distrib(sx, dx_c, dx_b);
    lemma_mul_distrib(sx, 0, dx_b);
    lemma_mul_distrib(sx + dx_c, 0, dx_b);
    lemma_neg_mul(dx_c, dy_b);
    lemma_neg_mul(dx_c, dx_b);
    lemma_neg_mul(lo, dx_b);
    lemma_neg_mul(hi, dx_b);
}

/// When the point of `b` at `cross_num / cross_den` has height `y`, the
/// crossing is exactly at height `y`.
proof fn lemma_cross_vertical_point_exact(a: Line, b: Line, y: i64)
    requires
        a.spec_is_vertical(),
        crate::geom::spec_cross_vertical(a, b) is Some,
        b.start.y * cross_den(a, b) + cross_num(a, b) * (b.end.y - b.start.y) == y * cross_den(
            a,
            b,
        ),
    ensures
        crate::geom::spec_cross_vertical(a, b)->0.y == y,
{
    let dx_c = a.start.x - b.start.x;
    let dx_b = b.end.x - b.start.x;
    let dy_b = b.end.y - b.start.y;
    let sy = b.start.y as int;
    let k = y - sy;
    lemma_mul_distrib(y as int, sy, cross_den(a, b));
    lemma_neg_mul(dx_c, dy_b);
    if dx_b > 0 {
        crate::geom::lemma_trunc_div_within(dx_c * dy_b, dx_b, k, k);
    } else {
        crate::geom::lemma_trunc_div_within(-(dx_c * dy_b), -dx_b, k, k);
    }
}

/// Fraction of `seg` at which it crosses the axis-aligned segment `a`, as
/// `side_num / side_den`.
pub open spec fn side_num(a: Line, seg: Line) -> int {
    if a.spec_is_vertical() {
        cross_num(a, seg)
    } else {
        cross_num(a.spec_swap_axes(), seg.spec_swap_axes())
    }
}

pub open spec fn side_den(a: Line, seg: Line) -> int {
    if a.spec_is_vertical() {
        cross_den(a, seg)
    } else {
        cross_den(a.spec_swap_axes(), seg.spec_swap_axes())
    }
}

proof fn lemma_mul_cancel(a: int, b: int, d: int) by (nonlinear_arith)
    requires
        a * d == b * d,
        d > 0,
    ensures
        a == b,
{
}

/// A crossing of a segment lying in the window is a point of the crossing
/// segment that lies in the window.
proof fn lemma_crossing_in_window(r: Rect, a: Line, seg: Line)
    requires
        r.wf(),
        a.spec_is_ortho(),
        r.spec_contains(a.start),
        r.spec_contains(a.end),
        spec_intersection(a, seg) is Some,
    ensures
        point_in_window(r, seg, side_num(a, seg), side_den(a, seg)),
{
    let (av, bv) = if a.spec_is_vertical() {
        (a, seg)
    } else {
        (a.spec_swap_axes(), seg.spec_swap_axes())
    };
    lemma_cross_vertical_point(av, bv);
    let n = side_num(a, seg);
    let d = side_den(a, seg);
    let lo = crate::geom::min_of(av.start.y as int, av.end.y as int);
    let hi = crate::geom::max_of(av.start.y as int, av.end.y as int);
    if a.spec_is_vertical() {
        lemma_mul_le_pos(r.x0 as int, a.start.x as int, d);
        lemma_mul_le_pos(a.start.x as int, r.x1 as int, d);
        lemma_mul_le_pos(r.y0 as int, lo, d);
        lemma_mul_le_pos(hi, r.y1 as int, d);
    } else {
        lemma_mul_le_pos(r.y0 as int, a.start.y as int, d);
        lemma_mul_le_pos(a.start.y as int, r.y1 as int, d);
        lemma_mul_le_pos(r.x0 as int, lo, d);
        lemma_mul_le_pos(hi, r.x1 as int, d);
    }
}

/// A crossing at a point of the crossing segment that is `c` is `c` itself.
proof fn lemma_crossing_exact(a: Line, seg: Line, c: Coord)
    requires
        a.spec_is_ortho(),
        spec_intersection(a, seg) is Some,
        point_is(seg, side_num(a, seg), side_den(a, seg), c),
    ensures
        spec_intersection(a, seg) == Some(c),
{
    let n = side_num(a, seg);
    let d = side_den(a, seg);
    if a.spec_is_vertical() {
        lemma_cross_vertical_point(a, seg);
        lemma_mul_cancel(a.start.x as int, c.x as int, d);
        lemma_cross_vertical_point_exact(a, seg, c.y);
    } else {
        let av = a.spec_swap_axes();
        let bv = seg.spec_swap_axes();
        lemma_cross_vertical_point(av, bv);
        lemma_mul_cancel(a.start.y as int, c.y as int, d);
        lemma_cross_vertical_point_exact(av, bv, c.x);
    }
}

/// A segment no point of which lies in the closed window leaves nothing.
pub proof fn segment_apart_is_dropped(r: Rect, seg: Line)
    requires
        r.wf(),
        forall|num: int, den: int| !#[trigger] point_in_window(r, seg, num, den),
    ensures
        r.spec_clip_segment(seg) is None,
{
    assert(!point_in_window(r, seg, 0, 1));
    assert forall|i: int| 0 <= i < 4 implies spec_intersection(#[trigger] r.side(i), seg) is None by {
        if spec_intersection(r.side(i), seg) is Some {
            lemma_crossing_in_window(r, r.side(i), seg);
            assert(point_in_window(r, seg, side_num(r.side(i), seg), side_den(r.side(i), seg)));
        }
    }
    segment_outside_is_dropped(r, seg);
}

/// A segment with both endpoints outside the window whose only point in the
/// closed window is the corner `k` merely grazes that corner, and leaves
/// nothing.
pub proof fn corner_contact_is_dropped(r: Rect, seg: Line, k: int)
    requires
        r.wf(),
        0 <= k < 4,
        !r.spec_contains(seg.start),
        !r.spec_contains(seg.end),
        forall|num: int, den: int|
            #[trigger] point_in_window(r, seg, num, den) ==> point_is(seg, num, den, r.corner(k)),
    ensures
        r.spec_clip_segment(seg) is None,
{
    assert forall|i: int| 0 <= i < 4 implies #[trigger] spec_intersection(r.side(i), seg) is None
        || spec_intersection(r.side(i), seg) == Some(r.corner(k)) by {
        if spec_intersection(r.side(i), seg) is Some {
            lemma_crossing_in_window(r, r.side(i), seg);
            lemma_crossing_exact(r.side(i), seg, r.corner(k));
        }
    }
    corner_graze_is_dropped(r, seg, k);
}

/// Reversing a chain keeps it closed and keeps its different coordinates.
proof fn lemma_reverse_proper(h: Seq<Coord>)
    requires
        h.len() >= 2,
        h[0] == h.last(),
        has_three_distinct(h),
    ensures
        h.reverse().len() >= 2,
        h.reverse()[0] == h.reverse().last(),
        has_three_distinct(h.reverse()),
        h.reverse().reverse() == h,
{
    let r = h.reverse();
    let n = h.len();
    assert(r[0] == h[n - 1]);
    assert(r.last() == r[n - 1]);
    assert(r[n - 1] == h[0]);
    let (j, k) = choose|j: int, k: int|
        #![trigger h[j], h[k]]
        0 <= j < n && 0 <= k < n && h[j] != h[0] && h[k] != h[0] && h[k] != h[j];
    assert(r[n - 1 - j] == h[j]);
    assert(r[n - 1 - k] == h[k]);
    assert(r.reverse() =~= h);
}

/// A hole that lies in the window: closed, with three different
/// coordinates.
pub open spec fn ring_in_window(r: Rect, h: Seq<Coord>) -> bool {
    &&& h.len() >= 2
    &&& h[0] == h.last()
    &&& has_three_distinct(h)
    &&& forall|i: int| 0 <= i < h.len() ==> r.spec_contains(#[trigger] h[i])
}

proof fn lemma_reversed_ring_in_window(r: Rect, h: Seq<Coord>)
    requires
        ring_in_window(r, h),
    ensures
        ring_in_window(r, h.reverse()),
{
    lemma_reverse_proper(h);
    assert forall|i: int| 0 <= i < h.len() implies r.spec_contains(#[trigger] h.reverse()[i]) by {
        assert(h.reverse()[i] == h[h.len() - 1 - i]);
    }
}

proof fn lemma_hole_rings_inside(c: ClipRect, holes: Seq<Seq<Coord>>)
    requires
        c.wf(),
        forall|i: int| 0 <= i < holes.len() ==> ring_in_window(c.inner, #[trigger] holes[i]),
    ensures
        c.hole_rings(holes) == holes.map_values(|h: Seq<Coord>| h.reverse()),
    decreases holes.len(),
{
    if holes.len() > 0 {
        let d = holes.drop_last();
        assert forall|i: int| 0 <= i < d.len() implies ring_in_window(c.inner, #[trigger] d[i]) by {
            assert(d[i] == holes[i]);
        }
        lemma_hole_rings_inside(c, d);
        let h = holes.last();
        assert(ring_in_window(c.inner, holes[holes.len() - 1]));
        lemma_reversed_ring_in_window(c.inner, h);
        ring_inside_is_kept(c, h.reverse());
        assert(c.hole_rings(holes) =~= holes.map_values(|h: Seq<Coord>| h.reverse()));
    }
}

/// With a single polygon, every clipped hole goes to it, turned back.
proof fn lemma_place_holes_single(c: ClipRect, e: Seq<Coord>, hs: Seq<Seq<Coord>>)
    ensures
        c.place_holes(seq![(e, Seq::<Seq<Coord>>::empty())], hs) == seq![
            (e, hs.map_values(|h: Seq<Coord>| h.reverse())),
        ],
    decreases hs.len(),
{
    if hs.len() > 0 {
        lemma_place_holes_single(c, e, hs.drop_last());
        assert(hs.map_values(|h: Seq<Coord>| h.reverse()) =~= hs.drop_last().map_values(
            |h: Seq<Coord>| h.reverse(),
        ).push(hs.last().reverse()));
        assert(c.place_holes(seq![(e, Seq::<Seq<Coord>>::empty())], hs) =~= seq![
            (e, hs.map_values(|h: Seq<Coord>| h.reverse())),
        ]);
    } else {
        assert(hs.map_values(|h: Seq<Coord>| h.reverse()) =~= Seq::<Seq<Coord>>::empty());
    }
}

/// A polygon whose exterior and holes all lie in the window, each closed
/// with three different coordinates, comes back unchanged.
pub proof fn polygon_inside_is_kept(c: ClipRect, ext: Seq<Coord>, holes: Seq<Seq<Coord>>)
    requires
        c.wf(),
        ring_in_window(c.inner, ext),
        forall|i: int| 0 <= i < holes.len() ==> ring_in_window(c.inner, #[trigger] holes[i]),
    ensures
        c.spec_clip_polygon(ext, holes) == seq![(ext, holes)],
{
    ring_inside_is_kept(c, ext);
    let polys = seq![ext].map_values(|e: Seq<Coord>| (e, Seq::<Seq<Coord>>::empty()));
    assert(polys =~= seq![(ext, Seq::<Seq<Coord>>::empty())]);
    lemma_hole_rings_inside(c, holes);
    let rev = holes.map_values(|h: Seq<Coord>| h.reverse());
    lemma_place_holes_single(c, ext, rev);
    let back = rev.map_values(|h: Seq<Coord>| h.reverse());
    assert forall|i: int| 0 <= i < holes.len() implies #[trigger] back[i] == holes[i] by {
        lemma_reverse_proper(holes[i]);
    }
    assert(back =~= holes);
}

/// A polygon whose exterior clips to a single ring, with one hole that lies
/// in the window, gives one polygon that keeps that hole unchanged.
pub proof fn hole_in_window_is_kept(c: ClipRect, ext: Seq<Coord>, h: Seq<Coord>)
    requires
        c.wf(),
        c.spec_clip_polygon_ring(ext).len() == 1,
        ring_in_window(c.inner, h),
    ensures
        c.spec_clip_polygon(ext, seq![h]) == seq![(c.spec_clip_polygon_ring(ext)[0], seq![h])],
{
    let e = c.spec_clip_polygon_ring(ext)[0];
    let polys = c.spec_clip_polygon_ring(ext).map_values(
        |e: Seq<Coord>| (e, Seq::<Seq<Coord>>::empty()),
    );
    assert(polys =~= seq![(e, Seq::<Seq<Coord>>::empty())]);
    lemma_hole_rings_inside(c, seq![h]);
    let rev = seq![h].map_values(|g: Seq<Coord>| g.reverse());
    assert(rev =~= seq![h.reverse()]);
    lemma_place_holes_single(c, e, rev);
    lemma_reverse_proper(h);
    assert(rev.map_values(|g: Seq<Coord>| g.reverse()) =~= seq![h]);
}

/// A chain no point of which lies in the closed window leaves nothing.
pub proof fn chain_apart_is_dropped(c: ClipRect, pts: Seq<Coord>)
    requires
        c.wf(),
        forall|i: int, num: int, den: int|
            0 <= i < lines_of(pts).len() ==> !#[trigger] point_in_window(
                c.inner,
                lines_of(pts)[i],
                num,
                den,
            ),
    ensures
        c.spec_clip_linestring(pts).len() == 0,
{
    let l = lines_of(pts);
    assert forall|i: int| 0 <= i < l.len() implies c.inner.spec_clip_segment(#[trigger] l[i]) is None by {
        assert forall|num: int, den: int| !#[trigger] point_in_window(c.inner, l[i], num, den) by {}
        segment_apart_is_dropped(c.inner, l[i]);
    }
    lemma_clipped_none(c.inner, l, l.len() as int);
}

/// A polygon whose exterior has no point in the closed window, and whose
/// inside (by the even-odd rule) holds no point of the window, leaves
/// nothing.
pub proof fn polygon_apart_is_dropped(c: ClipRect, ext: Seq<Coord>, holes: Seq<Seq<Coord>>)
    requires
        c.wf(),
        forall|i: int, num: int, den: int|
            0 <= i < lines_of(ext).len() ==> !#[trigger] point_in_window(
                c.inner,
                lines_of(ext)[i],
                num,
                den,
            ),
        forall|p: Coord| c.inner.spec_contains(p) ==> !crate::geom::spec_is_inside(p, ext),
    ensures
        c.spec_clip_polygon(ext, holes).len() == 0,
{
    chain_apart_is_dropped(c, ext);
    ring_outside_is_dropped(c, ext);
}

/// When a segment crosses the boundary at two different points, its piece
/// runs between them, starting at the one nearer to the segment's start.
pub proof fn two_crossings_keep_direction(r: Rect, seg: Line)
    requires
        r.wf(),
        !(r.spec_contains(seg.start) && r.spec_contains(seg.end)),
        r.isects_upto(seg, 4).len() >= 2,
    ensures
        r.spec_clip_segment(seg) matches Some(l) && seg.start.spec_manhattan_dist(l.start)
            <= seg.start.spec_manhattan_dist(l.end) && ((l.start == r.isects_upto(seg, 4)[0]
            && l.end == r.isects_upto(seg, 4)[1]) || (l.start == r.isects_upto(seg, 4)[1]
            && l.end == r.isects_upto(seg, 4)[0])),
{
}

} // verus!
