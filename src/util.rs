use crate::geom::{Coord, Line, LineString};
use crate::rect::Rect;
use crate::stitch::has_three_distinct;
use vstd::prelude::*;

verus! {

/// Coordinates of a connected run of segments: every start, then the last
/// end.
pub open spec fn segments_to_coords(s: Seq<Line>) -> Seq<Coord> {
    if s.len() == 0 {
        Seq::empty()
    } else {
        Seq::new(s.len(), |i: int| s[i].start).push(s.last().end)
    }
}

/// Chain through the segments of a connected run.
pub fn segments_to_linestring(segments: &Vec<Line>) -> (r: LineString)
    ensures
        r.0@ == segments_to_coords(segments@),
{
    let mut pts: Vec<Coord> = Vec::new();
    let n = segments.len();
    if n == 0 {
        assert(pts@ =~= segments_to_coords(segments@));
        return LineString(pts);
    }
    let mut i: usize = 0;
    while i < n
        invariant
            n == segments.len(),
            i <= n,
            pts@ =~= Seq::new(i as nat, |k: int| segments@[k].start),
        decreases n - i,
    {
        pts.push(segments[i].start);
        i = i + 1;
    }
    pts.push(segments[n - 1].end);
    assert(pts@ =~= segments_to_coords(segments@));
    LineString(pts)
}

impl Rect {
    pub open spec fn spec_strictly_inside(self, c: Coord) -> bool {
        self.x0 < c.x < self.x1 && self.y0 < c.y < self.y1
    }
}

/// The first coordinate of `pts`, from index `i` on, strictly inside the
/// window.
pub open spec fn first_inside(rect: Rect, pts: Seq<Coord>, i: int) -> Option<Coord>
    decreases pts.len() - i,
{
    if i < 0 || i >= pts.len() {
        None
    } else if rect.spec_strictly_inside(pts[i]) {
        Some(pts[i])
    } else {
        first_inside(rect, pts, i + 1)
    }
}

/// The first coordinate of `ls` strictly inside the window, off its
/// boundary.
pub fn find_coord_inside(ls: &LineString, rect: &Rect) -> (r: Option<Coord>)
    ensures
        r == first_inside(*rect, ls.0@, 0),
        r matches Some(c) ==> rect.spec_strictly_inside(c),
{
    let pts = &ls.0;
    let mut i: usize = 0;
    while i < pts.len()
        invariant
            i <= pts.len(),
            pts@ == ls.0@,
            first_inside(*rect, ls.0@, 0) == first_inside(*rect, ls.0@, i as int),
        decreases pts.len() - i,
    {
        let c = pts[i];
        if rect.x0 < c.x && c.x < rect.x1 && rect.y0 < c.y && c.y < rect.y1 {
            return Some(c);
        }
        i = i + 1;
    }
    None
}

/// A copy of a chain.
pub fn copy_chain(ls: &LineString) -> (r: LineString)
    ensures
        r.0@ == ls.0@,
{
    let pts = ls.0.clone();
    assert(pts@ =~= ls.0@);
    LineString(pts)
}

/// Whether the chain holds at least three different coordinates.
pub fn three_distinct(c: &Vec<Coord>) -> (r: bool)
    ensures
        r == has_three_distinct(c@),
{
    if c.len() == 0 {
        return false;
    }
    let first = c[0];
    let mut j: usize = 0;
    while j < c.len() && c[j] == first
        invariant
            j <= c.len(),
            c.len() > 0,
            first == c@[0],
            forall|t: int| 0 <= t < j ==> c@[t] == first,
        decreases c.len() - j,
    {
        j = j + 1;
    }
    if j == c.len() {
        return false;
    }
    let second = c[j];
    let mut k: usize = 0;
    while k < c.len()
        invariant
            k <= c.len(),
            j < c.len(),
            first == c@[0],
            second == c@[j as int],
            second != first,
            forall|t: int| 0 <= t < k ==> c@[t] == first || c@[t] == second,
        decreases c.len() - k,
    {
        if c[k] != first && c[k] != second {
            assert(c@[k as int] != c@[0] && c@[j as int] != c@[0] && c@[k as int] != c@[j as int]);
            return true;
        }
        k = k + 1;
    }
    assert forall|a: int, b: int|
        #![trigger c@[a], c@[b]]
        0 <= a < c.len() && 0 <= b < c.len() && c@[a] != c@[0] && c@[b] != c@[0] implies c@[b]
        == c@[a] by {
        assert(c@[a] == first || c@[a] == second);
        assert(c@[b] == first || c@[b] == second);
    }
    false
}

} // verus!
