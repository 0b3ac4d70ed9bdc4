use crate::geom::{
    all_bounded, spec_intersection, spec_is_inside, views_of, Coord, Line, LineString, COORD_LIMIT,
};
use vstd::prelude::*;

verus! {

/// Position of a boundary point along the rectangle's perimeter.
///
/// `side` is the boundary segment that holds the point (0 left, 1 top,
/// 2 right, 3 bottom, walking clockwise from `(x0, y0)`), and `offset` the
/// distance walked along that side from its first corner. Positions compare
/// lexicographically, which is the order of the walk. A point off the
/// boundary gets side 4.
#[derive(Clone, Copy, Debug, PartialEq, Eq, Structural)]
pub struct PerimeterIndex {
    pub side: u64,
    pub offset: i64,
}

impl PerimeterIndex {
    pub open spec fn spec_lt(self, o: PerimeterIndex) -> bool {
        self.side < o.side || (self.side == o.side && self.offset < o.offset)
    }

    pub open spec fn spec_le(self, o: PerimeterIndex) -> bool {
        self.spec_lt(o) || self == o
    }

    /// `self` comes strictly before `o` in the walk.
    pub fn lt(&self, o: &PerimeterIndex) -> (r: bool)
        ensures
            r == self.spec_lt(*o),
    {
        self.side < o.side || (self.side == o.side && self.offset < o.offset)
    }
}

/// Walking forward from `tail`, `p` is reached strictly before `a`.
pub open spec fn spec_is_index_closer(tail: PerimeterIndex, p: PerimeterIndex, a: PerimeterIndex) -> bool {
    if tail.spec_le(a) {
        tail.spec_le(p) && p.spec_lt(a)
    } else {
        tail.spec_le(p) || p.spec_lt(a)
    }
}

/// The clip window, with its four boundary segments stored clockwise from
/// `(x0, y0)`: up the left side first.
pub struct Rect {
    pub x0: i64,
    pub y0: i64,
    pub x1: i64,
    pub y1: i64,
    pub lines: [Line; 4],
}

impl Rect {
    /// Corner `i` of the walk: `(x0, y0)`, `(x0, y1)`, `(x1, y1)`, `(x1, y0)`.
    pub open spec fn corner(self, i: int) -> Coord {
        if i == 0 {
            Coord { x: self.x0, y: self.y0 }
        } else if i == 1 {
            Coord { x: self.x0, y: self.y1 }
        } else if i == 2 {
            Coord { x: self.x1, y: self.y1 }
        } else {
            Coord { x: self.x1, y: self.y0 }
        }
    }

    pub open spec fn side(self, i: int) -> Line {
        Line { start: self.corner(i), end: self.corner((i + 1) % 4) }
    }

    pub open spec fn wf(self) -> bool {
        &&& self.x0 <= self.x1
        &&& self.y0 <= self.y1
        &&& -COORD_LIMIT <= self.x0 && self.x1 <= COORD_LIMIT
        &&& -COORD_LIMIT <= self.y0 && self.y1 <= COORD_LIMIT
        &&& forall|i: int| 0 <= i < 4 ==> #[trigger] self.lines@[i] == self.side(i)
    }

    pub open spec fn spec_contains(self, c: Coord) -> bool {
        self.x0 <= c.x <= self.x1 && self.y0 <= c.y <= self.y1
    }

    pub open spec fn spec_is_corner(self, c: Coord) -> bool {
        exists|i: int| 0 <= i < 4 && c == #[trigger] self.corner(i)
    }

    /// Closed ring of the boundary, as the coordinates of a polygon.
    pub open spec fn boundary_ring(self) -> Seq<Coord> {
        seq![self.corner(0), self.corner(1), self.corner(2), self.corner(3), self.corner(0)]
    }

    /// The window `[x0, x1] x [y0, y1]`.
    pub fn new(x0: i64, y0: i64, x1: i64, y1: i64) -> (r: Rect)
        requires
            x0 <= x1,
            y0 <= y1,
            -COORD_LIMIT <= x0,
            x1 <= COORD_LIMIT,
            -COORD_LIMIT <= y0,
            y1 <= COORD_LIMIT,
        ensures
            r.wf(),
            r.x0 == x0 && r.y0 == y0 && r.x1 == x1 && r.y1 == y1,
    {
        let lines = [
            Line::new(Coord { x: x0, y: y0 }, Coord { x: x0, y: y1 }),
            Line::new(Coord { x: x0, y: y1 }, Coord { x: x1, y: y1 }),
            Line::new(Coord { x: x1, y: y1 }, Coord { x: x1, y: y0 }),
            Line::new(Coord { x: x1, y: y0 }, Coord { x: x0, y: y0 }),
        ];
        let r = Rect { x0, y0, x1, y1, lines };
        assert forall|i: int| 0 <= i < 4 implies #[trigger] r.lines@[i] == r.side(i) by {
            if i == 0 {
            } else if i == 1 {
            } else if i == 2 {
            } else {
            }
        }
        r
    }

    /// The boundary segments, clockwise from `(x0, y0)`.
    pub fn lines(&self) -> (r: [Line; 4])
        ensures
            r == self.lines,
    {
        self.lines
    }

    fn corner_points(&self) -> (r: [Coord; 4])
        requires
            self.wf(),
        ensures
            forall|i: int| 0 <= i < 4 ==> #[trigger] r@[i] == self.corner(i),
    {
        assert(self.lines@[0] == self.side(0));
        assert(self.lines@[1] == self.side(1));
        assert(self.lines@[2] == self.side(2));
        assert(self.lines@[3] == self.side(3));
        [self.lines[0].start, self.lines[1].start, self.lines[2].start, self.lines[3].start]
    }

    pub fn contains_coord(&self, c: &Coord) -> (r: bool)
        ensures
            r == self.spec_contains(*c),
    {
        self.x0 <= c.x && c.x <= self.x1 && self.y0 <= c.y && c.y <= self.y1
    }

    fn contains_segment(&self, s: &Line) -> (r: bool)
        ensures
            r == (self.spec_contains(s.start) && self.spec_contains(s.end)),
    {
        self.contains_coord(&s.start) && self.contains_coord(&s.end)
    }

    /// Both endpoints of the segment lie outside the window.
    fn is_crossing(&self, s: &Line) -> (r: bool)
        ensures
            r == (!self.spec_contains(s.start) && !self.spec_contains(s.end)),
    {
        !self.contains_coord(&s.start) && !self.contains_coord(&s.end)
    }

    fn is_corner(&self, p: &Coord) -> (r: bool)
        requires
            self.wf(),
        ensures
            r == self.spec_is_corner(*p),
    {
        let corners = self.corner_points();
        let mut i: usize = 0;
        while i < 4
            invariant
                i <= 4,
                forall|k: int| 0 <= k < 4 ==> #[trigger] corners@[k] == self.corner(k),
                forall|k: int| 0 <= k < i ==> *p != #[trigger] self.corner(k),
            decreases 4 - i,
        {
            if *p == corners[i] {
                return true;
            }
            i = i + 1;
        }
        false
    }

    /// The point itself when it lies in the window (boundary included).
    pub fn clip_point(&self, p: &Coord) -> (r: Option<Coord>)
        ensures
            r == (if self.spec_contains(*p) {
                Some(*p)
            } else {
                None
            }),
    {
        if self.contains_coord(p) {
            Some(*p)
        } else {
            None
        }
    }

    /// Distinct crossing points of `seg` with the first `k` sides, in side
    /// order.
    pub open spec fn isects_upto(self, seg: Line, k: int) -> Seq<Coord>
        decreases k,
    {
        if k <= 0 {
            Seq::empty()
        } else {
            let acc = self.isects_upto(seg, k - 1);
            match spec_intersection(self.side(k - 1), seg) {
                Some(p) => if acc.contains(p) {
                    acc
                } else {
                    acc.push(p)
                },
                None => acc,
            }
        }
    }

    /// The part of `seg` inside the window, in `seg`'s direction.
    pub open spec fn spec_clip_segment(self, seg: Line) -> Option<Line> {
        let pts = self.isects_upto(seg, 4);
        if self.spec_contains(seg.start) && self.spec_contains(seg.end) {
            Some(seg)
        } else if pts.len() >= 2 {
            if seg.start.spec_manhattan_dist(pts[0]) <= seg.start.spec_manhattan_dist(pts[1]) {
                Some(Line { start: pts[0], end: pts[1] })
            } else {
                Some(Line { start: pts[1], end: pts[0] })
            }
        } else if pts.len() == 1 {
            if !self.spec_contains(seg.start) && !self.spec_contains(seg.end)
                && self.spec_is_corner(pts[0]) {
                // a crossing segment that only grazes a corner
                None
            } else if self.spec_contains(seg.start) {
                Some(Line { start: seg.start, end: pts[0] })
            } else {
                Some(Line { start: pts[0], end: seg.end })
            }
        } else {
            None
        }
    }

    pub proof fn lemma_isects_bounded(self, seg: Line, k: int)
        requires
            self.wf(),
            0 <= k <= 4,
            seg.bounded(COORD_LIMIT as int),
        ensures
            all_bounded(self.isects_upto(seg, k), COORD_LIMIT as int),
            forall|i: int|
                0 <= i < self.isects_upto(seg, k).len() ==> self.spec_contains(
                    #[trigger] self.isects_upto(seg, k)[i],
                ),
            forall|i: int|
                0 <= i < self.isects_upto(seg, k).len() ==> exists|s: int|
                    0 <= s < k && spec_intersection(self.side(s), seg) == Some(
                        #[trigger] self.isects_upto(seg, k)[i],
                    ),
        decreases k,
    {
        if k > 0 {
            self.lemma_isects_bounded(seg, k - 1);
            self.lemma_side_crossing_bounded(seg, k - 1);
            let acc = self.isects_upto(seg, k - 1);
            match spec_intersection(self.side(k - 1), seg) {
                Some(p) => {
                    if !acc.contains(p) {
                        let s = self.isects_upto(seg, k);
                        assert forall|i: int| 0 <= i < s.len() implies exists|t: int|
                            0 <= t < k && spec_intersection(self.side(t), seg) == Some(
                                #[trigger] s[i],
                            ) by {
                            if i < acc.len() {
                                assert(s[i] == acc[i]);
                            } else {
                                assert(spec_intersection(self.side(k - 1), seg) == Some(s[i]));
                            }
                        }
                    }
                },
                None => {},
            }
        }
    }

    /// The crossing of `seg` with side `i` is a point of that side, so it lies
    /// within the window's bounds.
    proof fn lemma_side_crossing_bounded(self, seg: Line, i: int)
        requires
            self.wf(),
            0 <= i < 4,
            seg.bounded(COORD_LIMIT as int),
        ensures
            spec_intersection(self.side(i), seg) matches Some(p) ==> (p.bounded(
                COORD_LIMIT as int,
            ) && self.spec_contains(p)),
    {
        let a = self.side(i);
        if let Some(p) = spec_intersection(a, seg) {
            crate::geom::lemma_intersection_on_segment(a, seg);
        }
    }

    /// The part of `seg` inside the window, or `None` when nothing of it is.
    pub fn clip_segment(&self, seg: &Line) -> (r: Option<Line>)
        requires
            self.wf(),
            seg.bounded(COORD_LIMIT as int),
        ensures
            r == self.spec_clip_segment(*seg),
            r matches Some(l) ==> l.bounded(COORD_LIMIT as int),
    {
        if self.contains_segment(seg) {
            return Some(*seg);
        }
        let mut acc: Vec<Coord> = Vec::new();
        let mut i: usize = 0;
        while i < 4
            invariant
                self.wf(),
                seg.bounded(COORD_LIMIT as int),
                i <= 4,
                acc@ == self.isects_upto(*seg, i as int),
            decreases 4 - i,
        {
            proof {
                assert(self.lines@[i as int] == self.side(i as int));
                self.lemma_side_crossing_bounded(*seg, i as int);
            }
            match self.lines[i].intersection(seg) {
                Some(p) => {
                    if !vec_contains(&acc, &p) {
                        acc.push(p);
                    }
                },
                None => {},
            }
            i = i + 1;
        }
        proof {
            self.lemma_isects_bounded(*seg, 4);
        }
        if acc.len() >= 2 {
            let first = acc[0];
            let second = acc[1];
            if seg.start.manhattan_dist(&first) <= seg.start.manhattan_dist(&second) {
                Some(Line::new(first, second))
            } else {
                Some(Line::new(second, first))
            }
        } else if acc.len() == 1 {
            let first = acc[0];
            if self.is_crossing(seg) && self.is_corner(&first) {
                // a crossing segment that only grazes a corner
                return None;
            }
            if self.contains_coord(&seg.start) {
                Some(Line::new(seg.start, first))
            } else {
                Some(Line::new(first, seg.end))
            }
        } else {
            None
        }
    }
}

fn vec_contains(v: &Vec<Coord>, p: &Coord) -> (r: bool)
    ensures
        r == v@.contains(*p),
{
    let mut i: usize = 0;
    while i < v.len()
        invariant
            i <= v.len(),
            forall|k: int| 0 <= k < i ==> v@[k] != *p,
        decreases v.len() - i,
    {
        if v[i] == *p {
            return true;
        }
        i = i + 1;
    }
    false
}

/// Index after `i` in a cyclic sequence of length `n`.
pub open spec fn succ(i: int, n: int) -> int {
    if i + 1 < n {
        i + 1
    } else {
        0
    }
}

/// First index from `i` on where a segment does not end where its cyclic
/// successor starts; `c.len()` when there is none.
pub open spec fn first_break(c: Seq<Line>, i: int) -> int
    decreases c.len() - i,
{
    if i < 0 || i >= c.len() {
        c.len() as int
    } else if c[i].end != c[succ(i, c.len() as int)].start {
        i
    } else {
        first_break(c, i + 1)
    }
}

/// Where grouping starts: just after the first break, so that a chain that
/// runs over the end of the sequence is not cut in two.
pub open spec fn split_offset(c: Seq<Line>) -> int {
    let b = first_break(c, 0);
    if b < c.len() {
        succ(b, c.len() as int)
    } else {
        0
    }
}

pub open spec fn rotate(c: Seq<Line>, off: int) -> Seq<Line> {
    c.subrange(off, c.len() as int) + c.subrange(0, off)
}

/// Maximal runs of consecutive segments where each starts where the
/// previous one ends.
pub open spec fn group_runs(s: Seq<Line>) -> Seq<Seq<Line>>
    decreases s.len(),
{
    if s.len() == 0 {
        Seq::empty()
    } else {
        let g = group_runs(s.drop_last());
        let x = s.last();
        if g.len() > 0 && g.last().last().end == x.start {
            g.update(g.len() - 1, g.last().push(x))
        } else {
            g.push(seq![x])
        }
    }
}

impl Rect {
    /// Clipped segments of the first `k` of `segs`, `None`s left out.
    pub open spec fn clipped_upto(self, segs: Seq<Line>, k: int) -> Seq<Line>
        decreases k,
    {
        if k <= 0 {
            Seq::empty()
        } else {
            let acc = self.clipped_upto(segs, k - 1);
            match self.spec_clip_segment(segs[k - 1]) {
                Some(l) => acc.push(l),
                None => acc,
            }
        }
    }

    pub open spec fn spec_clip_segments(self, segs: Seq<Line>) -> Seq<Seq<Line>> {
        let c = self.clipped_upto(segs, segs.len() as int);
        if c.len() == 0 {
            Seq::empty()
        } else {
            group_runs(rotate(c, split_offset(c)))
        }
    }

    /// Clips each segment of a cyclic chain and groups what is left into
    /// maximal connected chains.
    pub fn clip_segments(&self, segments: &Vec<Line>) -> (r: Vec<Vec<Line>>)
        requires
            self.wf(),
            forall|i: int| 0 <= i < segments.len() ==> #[trigger] segments@[i].bounded(
                COORD_LIMIT as int,
            ),
        ensures
            views_of(r@) == self.spec_clip_segments(segments@),
            forall|i: int| 0 <= i < r.len() ==> (#[trigger] r@[i]).len() > 0,
            forall|i: int, j: int|
                0 <= i < r.len() && 0 <= j < r@[i].len() ==> #[trigger] r@[i]@[j].bounded(
                    COORD_LIMIT as int,
                ),
    {
        let mut clipped: Vec<Line> = Vec::new();
        let mut i: usize = 0;
        while i < segments.len()
            invariant
                self.wf(),
                i <= segments.len(),
                forall|k: int| 0 <= k < segments.len() ==> #[trigger] segments@[k].bounded(
                    COORD_LIMIT as int,
                ),
                clipped@ == self.clipped_upto(segments@, i as int),
                forall|k: int| 0 <= k < clipped.len() ==> #[trigger] clipped@[k].bounded(
                    COORD_LIMIT as int,
                ),
            decreases segments.len() - i,
        {
            match self.clip_segment(&segments[i]) {
                Some(l) => clipped.push(l),
                None => {},
            }
            i = i + 1;
        }
        let n = clipped.len();
        if n == 0 {
            let r: Vec<Vec<Line>> = Vec::new();
            assert(views_of(r@) =~= Seq::empty());
            return r;
        }
        let offset = split_offset_of(&clipped);
        let ghost rot = rotate(clipped@, offset as int);
        let mut groups: Vec<Vec<Line>> = Vec::new();
        let mut k: usize = 0;
        while k < n
            invariant
                n == clipped.len(),
                0 <= offset < n,
                rot == rotate(clipped@, offset as int),
                k <= n,
                views_of(groups@) == group_runs(rot.take(k as int)),
                forall|g: int| 0 <= g < groups.len() ==> #[trigger] groups@[g].len() > 0,
                forall|k: int| 0 <= k < clipped.len() ==> #[trigger] clipped@[k].bounded(
                    COORD_LIMIT as int,
                ),
                forall|a: int, b: int|
                    0 <= a < groups.len() && 0 <= b < groups@[a].len()
                        ==> #[trigger] groups@[a]@[b].bounded(COORD_LIMIT as int),
            decreases n - k,
        {
            let idx: usize = if k < n - offset {
                offset + k
            } else {
                k - (n - offset)
            };
            let seg = clipped[idx];
            assert(rot[k as int] == seg);
            let ghost before = views_of(groups@);
            assert(rot.take(k as int + 1).drop_last() =~= rot.take(k as int));
            let glen = groups.len();
            let joins = glen > 0 && {
                let last = &groups[glen - 1];
                last[last.len() - 1].end == seg.start
            };
            if joins {
                let mut last = groups.pop().unwrap();
                last.push(seg);
                groups.push(last);
                assert(views_of(groups@) =~= before.update(
                    before.len() - 1,
                    before.last().push(seg),
                ));
            } else {
                let mut g: Vec<Line> = Vec::new();
                g.push(seg);
                groups.push(g);
                assert(views_of(groups@) =~= before.push(seq![seg]));
            }
            k = k + 1;
        }
        assert(rot.take(n as int) =~= rot);
        groups
    }

    /// Position of a boundary point along the perimeter.
    pub open spec fn spec_perimeter_index(self, p: Coord) -> PerimeterIndex {
        if p.x == self.x0 && p.y < self.y1 {
            PerimeterIndex { side: 0, offset: (p.y - self.y0) as i64 }
        } else if p.y == self.y1 && p.x < self.x1 {
            PerimeterIndex { side: 1, offset: (p.x - self.x0) as i64 }
        } else if p.x == self.x1 && p.y > self.y0 {
            PerimeterIndex { side: 2, offset: (self.y1 - p.y) as i64 }
        } else if p.y == self.y0 && p.x > self.x0 {
            PerimeterIndex { side: 3, offset: (self.x1 - p.x) as i64 }
        } else {
            PerimeterIndex { side: 4, offset: 0 }
        }
    }

    /// Position of a point of the boundary along the perimeter; side 4 for a
    /// point off it.
    pub fn perimeter_index(&self, p: &Coord) -> (r: PerimeterIndex)
        requires
            self.wf(),
            p.bounded(COORD_LIMIT as int),
        ensures
            r == self.spec_perimeter_index(*p),
            r.side <= 4,
    {
        if p.x == self.x0 && p.y < self.y1 {
            PerimeterIndex { side: 0, offset: p.y - self.y0 }
        } else if p.y == self.y1 && p.x < self.x1 {
            PerimeterIndex { side: 1, offset: p.x - self.x0 }
        } else if p.x == self.x1 && p.y > self.y0 {
            PerimeterIndex { side: 2, offset: self.y1 - p.y }
        } else if p.y == self.y0 && p.x > self.x0 {
            PerimeterIndex { side: 3, offset: self.x1 - p.x }
        } else {
            PerimeterIndex { side: 4, offset: 0 }
        }
    }

    /// Length of boundary side `side` (0 left, 1 top, 2 right, 3 bottom).
    pub fn side_length(&self, side: u64) -> (r: i64)
        requires
            self.wf(),
        ensures
            r == (if side % 2 == 0 {
                self.y1 - self.y0
            } else {
                self.x1 - self.x0
            }),
    {
        if side % 2 == 0 {
            self.y1 - self.y0
        } else {
            self.x1 - self.x0
        }
    }

    /// Corners passed when walking forward from position `a` to position
    /// `b`, wrapping once past `(x0, y0)` when `b` comes before `a`.
    pub open spec fn spec_corner_nodes_between(
        self,
        a: PerimeterIndex,
        b: PerimeterIndex,
    ) -> Seq<Coord> {
        let i = a.side as int;
        let j = if b.spec_lt(a) {
            b.side + 4
        } else {
            b.side as int
        };
        Seq::new((j - i) as nat, |t: int| self.corner((i + t + 1) % 4))
    }

    pub fn corner_nodes_between(&self, a: PerimeterIndex, b: PerimeterIndex) -> (r: Vec<Coord>)
        requires
            self.wf(),
            a.side <= 4,
            b.side <= 4,
        ensures
            r@ == self.spec_corner_nodes_between(a, b),
    {
        let i: u64 = a.side;
        let j: u64 = if b.lt(&a) {
            b.side + 4
        } else {
            b.side
        };
        let mut res: Vec<Coord> = Vec::with_capacity(4);
        let mut k: u64 = i;
        while k < j
            invariant
                self.wf(),
                i <= k <= j <= 8,
                res@ =~= Seq::new((k - i) as nat, |t: int| self.corner((i + t + 1) % 4)),
            decreases j - k,
        {
            let s: usize = if k >= 4 {
                (k - 4) as usize
            } else {
                k as usize
            };
            assert(self.lines@[s as int] == self.side(s as int));
            res.push(self.lines[s].end);
            k = k + 1;
        }
        res
    }

    /// Walking forward from `tail`, position `p` comes strictly before `a`.
    pub fn is_index_closer(&self, tail: PerimeterIndex, p: PerimeterIndex, a: PerimeterIndex) -> (r:
        bool)
        ensures
            r == spec_is_index_closer(tail, p, a),
    {
        let tail_le_p = !p.lt(&tail);
        let p_lt_a = p.lt(&a);
        if !a.lt(&tail) {
            tail_le_p && p_lt_a
        } else {
            tail_le_p || p_lt_a
        }
    }
}

/// Index where grouping of the cyclic chain `c` starts.
fn split_offset_of(c: &Vec<Line>) -> (r: usize)
    requires
        c.len() > 0,
    ensures
        r == split_offset(c@),
        r < c.len(),
{
    let n = c.len();
    let mut i: usize = 0;
    while i < n
        invariant
            n == c.len(),
            i <= n,
            first_break(c@, 0) == first_break(c@, i as int),
        decreases n - i,
    {
        let nx: usize = if i + 1 < n {
            i + 1
        } else {
            0
        };
        if c[i].end != c[nx].start {
            return nx;
        }
        i = i + 1;
    }
    0
}

impl Rect {
    /// A grid point in the middle of the window.
    pub open spec fn center(self) -> Coord {
        Coord { x: (self.x0 + (self.x1 - self.x0) / 2) as i64, y: (self.y0 + (self.y1 - self.y0) / 2) as i64 }
    }

    /// Whether the window lies inside the ring, judged by its center; used
    /// when no edge of the ring enters the window.
    pub fn is_contained(&self, ring: &LineString) -> (r: bool)
        requires
            self.wf(),
            all_bounded(ring.0@, COORD_LIMIT as int),
        ensures
            r == spec_is_inside(self.center(), ring.0@),
    {
        let c = Coord { x: self.x0 + (self.x1 - self.x0) / 2, y: self.y0 + (self.y1 - self.y0) / 2 };
        c.is_inside(ring)
    }

    /// The closed boundary ring, clockwise from `(x0, y0)`.
    pub fn boundary(&self) -> (r: LineString)
        requires
            self.wf(),
        ensures
            r.0@ == self.boundary_ring(),
    {
        let corners = self.corner_points();
        let mut pts: Vec<Coord> = Vec::new();
        pts.push(corners[0]);
        pts.push(corners[1]);
        pts.push(corners[2]);
        pts.push(corners[3]);
        pts.push(corners[0]);
        assert(pts@ =~= self.boundary_ring());
        LineString(pts)
    }
}

} // verus!
