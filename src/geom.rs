use vstd::arithmetic::div_mod::lemma_fundamental_div_mod;
use vstd::prelude::*;

verus! {

/// Largest magnitude of a coordinate of an input geometry.
///
/// Coordinates live on a fixed-point integer grid; the caller chooses the
/// scale. The bound keeps every product of two coordinate differences well
/// inside `i128`.
pub const COORD_LIMIT: i64 = 1152921504606846976;

/// Bound on the coordinates that the crossing test accepts: twice the input
/// bound, which leaves room for the vertical ray of the point-in-ring test.
pub const SEGMENT_LIMIT: i64 = 2305843009213693952;

pub open spec fn magnitude(v: int) -> int {
    if v < 0 {
        -v
    } else {
        v
    }
}

/// Division rounded toward zero, for a positive divisor.
pub open spec fn trunc_div(n: int, d: int) -> int {
    if n >= 0 {
        n / d
    } else {
        -((-n) / d)
    }
}

pub open spec fn min_of(a: int, b: int) -> int {
    if a <= b {
        a
    } else {
        b
    }
}

pub open spec fn max_of(a: int, b: int) -> int {
    if a <= b {
        b
    } else {
        a
    }
}

/// A point of the plane.
#[derive(Clone, Copy, Debug, PartialEq, Eq, Structural)]
pub struct Coord {
    pub x: i64,
    pub y: i64,
}

/// A directed segment from `start` to `end`.
#[derive(Clone, Copy, Debug, PartialEq, Eq, Structural)]
pub struct Line {
    pub start: Coord,
    pub end: Coord,
}

/// An ordered sequence of coordinates: an open chain, or a ring when its
/// first and last coordinates are equal.
#[derive(Clone, Debug, PartialEq)]
pub struct LineString(pub Vec<Coord>);

/// A polygon: one exterior ring and any number of holes.
#[derive(Clone, Debug, PartialEq)]
pub struct Polygon {
    pub exterior: LineString,
    pub interiors: Vec<LineString>,
}

/// The geometries that a clip takes and returns.
#[derive(Clone, Debug, PartialEq)]
pub enum Geometry {
    Point(Coord),
    Line(Line),
    LineString(LineString),
    Polygon(Polygon),
    MultiPoint(Vec<Coord>),
    MultiLineString(Vec<LineString>),
    MultiPolygon(Vec<Polygon>),
    Rect(Coord, Coord),
    Triangle(Coord, Coord, Coord),
}

impl Coord {
    pub open spec fn bounded(self, m: int) -> bool {
        -m <= self.x <= m && -m <= self.y <= m
    }

    pub open spec fn spec_yx(self) -> Coord {
        Coord { x: self.y, y: self.x }
    }

    pub open spec fn spec_manhattan_dist(self, o: Coord) -> int {
        magnitude(self.x - o.x) + magnitude(self.y - o.y)
    }

    /// The same point with its axes exchanged.
    pub fn yx(self) -> (r: Coord)
        ensures
            r == self.spec_yx(),
    {
        Coord { x: self.y, y: self.x }
    }

    /// Sum of the distances along each axis.
    pub fn manhattan_dist(&self, other: &Coord) -> (r: i64)
        requires
            self.bounded(COORD_LIMIT as int),
            other.bounded(COORD_LIMIT as int),
        ensures
            r == self.spec_manhattan_dist(*other),
    {
        let dx: i64 = if self.x >= other.x {
            self.x - other.x
        } else {
            other.x - self.x
        };
        let dy: i64 = if self.y >= other.y {
            self.y - other.y
        } else {
            other.y - self.y
        };
        dx + dy
    }
}

/// The segments between consecutive coordinates of a chain.
pub open spec fn lines_of(pts: Seq<Coord>) -> Seq<Line> {
    if pts.len() < 2 {
        Seq::empty()
    } else {
        Seq::new((pts.len() - 1) as nat, |i: int| Line { start: pts[i], end: pts[i + 1] })
    }
}

/// The contents of each vector of a sequence of vectors.
pub open spec fn views_of<T>(v: Seq<Vec<T>>) -> Seq<Seq<T>> {
    v.map_values(|g: Vec<T>| g@)
}

pub open spec fn all_bounded(pts: Seq<Coord>, m: int) -> bool {
    forall|i: int| 0 <= i < pts.len() ==> #[trigger] pts[i].bounded(m)
}

impl Line {
    pub open spec fn bounded(self, m: int) -> bool {
        self.start.bounded(m) && self.end.bounded(m)
    }

    pub open spec fn spec_is_vertical(self) -> bool {
        self.start.x == self.end.x
    }

    pub open spec fn spec_is_ortho(self) -> bool {
        self.start.x == self.end.x || self.start.y == self.end.y
    }

    pub open spec fn spec_swap_axes(self) -> Line {
        Line { start: self.start.spec_yx(), end: self.end.spec_yx() }
    }

    pub fn new(start: Coord, end: Coord) -> (r: Line)
        ensures
            r == (Line { start, end }),
    {
        Line { start, end }
    }

    pub fn is_vertical(&self) -> (r: bool)
        ensures
            r == self.spec_is_vertical(),
    {
        self.start.x == self.end.x
    }

    pub fn is_ortho(&self) -> (r: bool)
        ensures
            r == self.spec_is_ortho(),
    {
        self.start.x == self.end.x || self.start.y == self.end.y
    }

    pub fn swap_axes(self) -> (r: Line)
        ensures
            r == self.spec_swap_axes(),
    {
        Line { start: self.start.yx(), end: self.end.yx() }
    }

    /// Where `b` crosses this segment, which must be horizontal or vertical.
    ///
    /// For a vertical `a`, `b` crosses it when `b`'s endpoints lie strictly on
    /// opposite sides of `a`'s line and `b` meets that line within `a`'s closed
    /// span. A touch at an endpoint of `b` is no crossing. The point returned
    /// lies on `a`; its coordinate along `a` is the exact meeting height
    /// rounded toward `b`'s start. A horizontal `a` is handled with both
    /// segments' axes exchanged.
    pub fn intersection(&self, b: &Line) -> (r: Option<Coord>)
        requires
            self.spec_is_ortho(),
            self.bounded(SEGMENT_LIMIT as int),
            b.bounded(SEGMENT_LIMIT as int),
        ensures
            r == spec_intersection(*self, *b),
            r is Some ==> on_segment(r->0, *self),
    {
        if !self.is_vertical() {
            let a = self.swap_axes();
            let bs = b.swap_axes();
            match cross_vertical(&a, &bs) {
                Some(p) => Some(p.yx()),
                None => None,
            }
        } else {
            cross_vertical(self, b)
        }
    }
}

/// `p` lies on the closed axis-aligned segment `a`.
pub open spec fn on_segment(p: Coord, a: Line) -> bool {
    min_of(a.start.x as int, a.end.x as int) <= p.x <= max_of(a.start.x as int, a.end.x as int)
        && min_of(a.start.y as int, a.end.y as int) <= p.y <= max_of(
        a.start.y as int,
        a.end.y as int,
    )
}

/// Crossing of `b` with the vertical segment `a` (see `Line::intersection`).
pub open spec fn spec_cross_vertical(a: Line, b: Line) -> Option<Coord> {
    let dx_c = a.start.x - b.start.x;
    let dx_b = b.end.x - b.start.x;
    let dy_b = b.end.y - b.start.y;
    let den = magnitude(dx_b);
    // height of b's line over its start at a's x, as n / den
    let n = if dx_b < 0 {
        -(dx_c * dy_b)
    } else {
        dx_c * dy_b
    };
    let lo = min_of(a.start.y as int, a.end.y as int) - b.start.y;
    let hi = max_of(a.start.y as int, a.end.y as int) - b.start.y;
    if dx_c == 0 || (dx_c < 0) != (dx_b < 0) || den <= magnitude(dx_c) {
        None
    } else if n < lo * den || n > hi * den {
        None
    } else {
        Some(Coord { x: a.start.x, y: (b.start.y + trunc_div(n, den)) as i64 })
    }
}

pub open spec fn spec_intersection(a: Line, b: Line) -> Option<Coord> {
    if a.spec_is_vertical() {
        spec_cross_vertical(a, b)
    } else {
        match spec_cross_vertical(a.spec_swap_axes(), b.spec_swap_axes()) {
            Some(p) => Some(p.spec_yx()),
            None => None,
        }
    }
}

proof fn lemma_mul_bounded(a: int, b: int, m: int) by (nonlinear_arith)
    requires
        -m <= a <= m,
        -m <= b <= m,
        m >= 0,
    ensures
        -(m * m) <= a * b <= m * m,
{
}

proof fn lemma_div_within(n: int, d: int, lo: int, hi: int)
    requires
        d > 0,
        n >= 0,
        lo * d <= n <= hi * d,
    ensures
        lo <= n / d <= hi,
{
    lemma_fundamental_div_mod(n, d);
    let q = n / d;
    let r = n % d;
    assert(0 <= r < d);
    assert(q <= hi) by (nonlinear_arith)
        requires
            n == d * q + r,
            0 <= r,
            n <= hi * d,
            d > 0,
    {
    }
    assert(lo <= q) by (nonlinear_arith)
        requires
            n == d * q + r,
            r < d,
            lo * d <= n,
            d > 0,
    {
    }
}

/// A quotient rounded toward zero stays between integer bounds of the exact one.
pub proof fn lemma_trunc_div_within(n: int, d: int, lo: int, hi: int)
    requires
        d > 0,
        lo * d <= n <= hi * d,
    ensures
        lo <= trunc_div(n, d) <= hi,
{
    if n >= 0 {
        if lo <= 0 {
            lemma_div_within(n, d, 0, hi);
        } else {
            lemma_div_within(n, d, lo, hi);
        }
    } else {
        assert((-hi) * d <= -n <= (-lo) * d) by (nonlinear_arith)
            requires
                lo * d <= n <= hi * d,
        {
        }
        if hi >= 0 {
            lemma_div_within(-n, d, 0, -lo);
        } else {
            lemma_div_within(-n, d, -hi, -lo);
        }
    }
}

/// A crossing point lies on the axis-aligned segment that it crosses.
pub proof fn lemma_intersection_on_segment(a: Line, b: Line)
    requires
        a.spec_is_ortho(),
    ensures
        spec_intersection(a, b) matches Some(p) ==> on_segment(p, a),
{
    let av = if a.spec_is_vertical() {
        a
    } else {
        a.spec_swap_axes()
    };
    let bv = if a.spec_is_vertical() {
        b
    } else {
        b.spec_swap_axes()
    };
    let dx_c = av.start.x - bv.start.x;
    let dx_b = bv.end.x - bv.start.x;
    let dy_b = bv.end.y - bv.start.y;
    let den = magnitude(dx_b);
    let n = if dx_b < 0 {
        -(dx_c * dy_b)
    } else {
        dx_c * dy_b
    };
    let lo = min_of(av.start.y as int, av.end.y as int) - bv.start.y;
    let hi = max_of(av.start.y as int, av.end.y as int) - bv.start.y;
    if spec_cross_vertical(av, bv) is Some {
        lemma_trunc_div_within(n, den, lo, hi);
    }
}

fn cross_vertical(a: &Line, b: &Line) -> (r: Option<Coord>)
    requires
        a.spec_is_vertical(),
        a.bounded(SEGMENT_LIMIT as int),
        b.bounded(SEGMENT_LIMIT as int),
    ensures
        r == spec_cross_vertical(*a, *b),
        r is Some ==> on_segment(r->0, *a),
{
    let dx_c: i128 = a.start.x as i128 - b.start.x as i128;
    let dx_b: i128 = b.end.x as i128 - b.start.x as i128;
    let dy_b: i128 = b.end.y as i128 - b.start.y as i128;
    if dx_c == 0 || (dx_c < 0) != (dx_b < 0) {
        return None;
    }
    let den: i128 = if dx_b < 0 {
        -dx_b
    } else {
        dx_b
    };
    let adx_c: i128 = if dx_c < 0 {
        -dx_c
    } else {
        dx_c
    };
    if den <= adx_c {
        return None;
    }
    let ghost m: int = 2 * SEGMENT_LIMIT;
    proof {
        lemma_mul_bounded(dx_c as int, dy_b as int, m);
    }
    let prod: i128 = dx_c * dy_b;
    let n: i128 = if dx_b < 0 {
        -prod
    } else {
        prod
    };
    let (ylo, yhi): (i64, i64) = if a.start.y <= a.end.y {
        (a.start.y, a.end.y)
    } else {
        (a.end.y, a.start.y)
    };
    let lo: i128 = ylo as i128 - b.start.y as i128;
    let hi: i128 = yhi as i128 - b.start.y as i128;
    proof {
        lemma_mul_bounded(lo as int, den as int, m);
        lemma_mul_bounded(hi as int, den as int, m);
    }
    if n < lo * den || n > hi * den {
        return None;
    }
    let q: i128 = if n >= 0 {
        n / den
    } else {
        -((-n) / den)
    };
    proof {
        lemma_trunc_div_within(n as int, den as int, lo as int, hi as int);
    }
    let y: i128 = b.start.y as i128 + q;
    Some(Coord { x: a.start.x, y: y as i64 })
}

/// Reversal of a directed geometry.
pub trait Reverse: Sized {
    spec fn reversed(self, r: Self) -> bool;

    fn reverse(self) -> (r: Self)
        ensures
            self.reversed(r),
    ;
}

impl Reverse for Line {
    open spec fn reversed(self, r: Line) -> bool {
        r.start == self.end && r.end == self.start
    }

    fn reverse(self) -> (r: Line) {
        Line { start: self.end, end: self.start }
    }
}

impl Reverse for LineString {
    open spec fn reversed(self, r: LineString) -> bool {
        r.0@ == self.0@.reverse()
    }

    fn reverse(self) -> (r: LineString) {
        let pts = self.0;
        let mut out: Vec<Coord> = Vec::with_capacity(pts.len());
        let mut i: usize = pts.len();
        while i > 0
            invariant
                i <= pts.len(),
                out@ == pts@.subrange(i as int, pts.len() as int).reverse(),
            decreases i,
        {
            i = i - 1;
            out.push(pts[i]);
            assert(out@ =~= pts@.subrange(i as int, pts.len() as int).reverse());
        }
        assert(pts@.subrange(0, pts.len() as int) =~= pts@);
        LineString(out)
    }
}

/// The upward vertical ray from `c` passes through `edge`: the edge's ends
/// lie on either side of the line `x = c.x`, an end on that line counting
/// with the left side, and the edge passes strictly above `c` there. The
/// height is compared exactly, through the turn from the edge to `c`.
pub open spec fn ray_crosses(c: Coord, edge: Line) -> bool {
    let s = edge.start;
    let e = edge.end;
    let turn = (e.x - s.x) * (c.y - s.y) - (e.y - s.y) * (c.x - s.x);
    ((s.x <= c.x) != (e.x <= c.x)) && if e.x > s.x {
        turn < 0
    } else {
        turn > 0
    }
}

/// Number of the first `k` of `lines` that the upward ray from `c` passes
/// through.
pub open spec fn crossings(c: Coord, lines: Seq<Line>, k: int) -> int
    decreases k,
{
    if k <= 0 {
        0
    } else {
        crossings(c, lines, k - 1) + if ray_crosses(c, lines[k - 1]) {
            1int
        } else {
            0int
        }
    }
}

/// Even-odd rule: the upward ray from `c` passes through the ring's edges an
/// odd number of times. A vertex on the ray counts once exactly when the
/// ring passes through the ray there.
pub open spec fn spec_is_inside(c: Coord, pts: Seq<Coord>) -> bool {
    crossings(c, lines_of(pts), lines_of(pts).len() as int) % 2 == 1
}

/// Whether the upward ray from `c` passes through `edge`.
fn ray_crosses_edge(c: &Coord, edge: &Line) -> (r: bool)
    requires
        c.bounded(COORD_LIMIT as int),
        edge.bounded(COORD_LIMIT as int),
    ensures
        r == ray_crosses(*c, *edge),
{
    let s = edge.start;
    let e = edge.end;
    if (s.x <= c.x) == (e.x <= c.x) {
        return false;
    }
    let ghost m: int = 2 * COORD_LIMIT;
    let ex: i128 = e.x as i128 - s.x as i128;
    let ey: i128 = e.y as i128 - s.y as i128;
    let cx: i128 = c.x as i128 - s.x as i128;
    let cy: i128 = c.y as i128 - s.y as i128;
    proof {
        lemma_mul_bounded(ex as int, cy as int, m);
        lemma_mul_bounded(ey as int, cx as int, m);
    }
    let turn: i128 = ex * cy - ey * cx;
    if e.x > s.x {
        turn < 0
    } else {
        turn > 0
    }
}

impl Coord {
    /// Whether this point lies inside the ring, by the even-odd rule.
    pub fn is_inside(&self, ls: &LineString) -> (r: bool)
        requires
            self.bounded(COORD_LIMIT as int),
            all_bounded(ls.0@, COORD_LIMIT as int),
        ensures
            r == spec_is_inside(*self, ls.0@),
    {
        let pts = &ls.0;
        let ghost lines = lines_of(pts@);
        if pts.len() < 2 {
            return false;
        }
        let mut count: u64 = 0;
        let mut i: usize = 0;
        while i + 1 < pts.len()
            invariant
                pts.len() >= 2,
                i + 1 <= pts.len(),
                lines == lines_of(pts@),
                self.bounded(COORD_LIMIT as int),
                all_bounded(pts@, COORD_LIMIT as int),
                count == crossings(*self, lines, i as int),
                count <= i,
            decreases pts.len() - i,
        {
            let edge = Line::new(pts[i], pts[i + 1]);
            assert(pts@[i as int].bounded(COORD_LIMIT as int));
            assert(pts@[i + 1].bounded(COORD_LIMIT as int));
            assert(lines[i as int] == edge);
            if ray_crosses_edge(self, &edge) {
                count = count + 1;
            }
            i = i + 1;
        }
        count % 2 == 1
    }
}

/// The segments between consecutive coordinates of `pts`.
pub fn lines_vec(pts: &Vec<Coord>) -> (r: Vec<Line>)
    ensures
        r@ == lines_of(pts@),
{
    let mut r: Vec<Line> = Vec::new();
    if pts.len() < 2 {
        assert(r@ =~= lines_of(pts@));
        return r;
    }
    let mut i: usize = 0;
    while i + 1 < pts.len()
        invariant
            pts.len() >= 2,
            i + 1 <= pts.len(),
            r@ =~= lines_of(pts@).take(i as int),
        decreases pts.len() - i,
    {
        r.push(Line::new(pts[i], pts[i + 1]));
        i = i + 1;
    }
    assert(lines_of(pts@).take(i as int) =~= lines_of(pts@));
    r
}

/// The segments of a chain with bounded coordinates are bounded.
pub proof fn lemma_lines_bounded(pts: Seq<Coord>, m: int)
    requires
        all_bounded(pts, m),
    ensures
        forall|i: int| 0 <= i < lines_of(pts).len() ==> #[trigger] lines_of(pts)[i].bounded(m),
{
    assert forall|i: int| 0 <= i < lines_of(pts).len() implies #[trigger] lines_of(pts)[i].bounded(m) by {
        assert(pts[i].bounded(m));
        assert(pts[i + 1].bounded(m));
    }
}

/// Reversing a chain keeps its coordinates, so it keeps them bounded.
pub proof fn lemma_reverse_bounded(pts: Seq<Coord>, m: int)
    requires
        all_bounded(pts, m),
    ensures
        all_bounded(pts.reverse(), m),
{
    assert forall|i: int| 0 <= i < pts.reverse().len() implies #[trigger] pts.reverse()[i].bounded(m) by {
        assert(pts.reverse()[i] == pts[pts.len() - 1 - i]);
    }
}

} // verus!
