use crate::geom::{all_bounded, Coord, COORD_LIMIT};
use crate::rect::{spec_is_index_closer, PerimeterIndex, Rect};
use vstd::prelude::*;

verus! {

/// A clipped piece of a ring, tagged with the perimeter position of its
/// first coordinate.
pub type Fragment = (PerimeterIndex, Vec<Coord>);

pub open spec fn fragment_view(f: Fragment) -> (PerimeterIndex, Seq<Coord>) {
    (f.0, f.1@)
}

pub open spec fn queue_view(q: Seq<Fragment>) -> Seq<(PerimeterIndex, Seq<Coord>)> {
    q.map_values(|f: Fragment| fragment_view(f))
}

/// A chain is closed when it is empty or ends where it starts.
pub open spec fn is_closed(c: Seq<Coord>) -> bool {
    c.len() == 0 || c[0] == c.last()
}

/// Where a fragment with position `k` goes in a queue sorted by descending
/// position: before the first entry whose position is below `k`.
pub open spec fn insert_pos(s: Seq<(PerimeterIndex, Seq<Coord>)>, k: PerimeterIndex, i: int) -> int
    decreases s.len() - i,
{
    if i < 0 || i >= s.len() {
        s.len() as int
    } else if s[i].0.spec_lt(k) {
        i
    } else {
        insert_pos(s, k, i + 1)
    }
}

/// Stable sort by descending perimeter position.
pub open spec fn sort_desc(s: Seq<(PerimeterIndex, Seq<Coord>)>) -> Seq<(PerimeterIndex, Seq<Coord>)>
    decreases s.len(),
{
    if s.len() == 0 {
        s
    } else {
        let t = sort_desc(s.drop_last());
        t.insert(insert_pos(t, s.last().0, 0), s.last())
    }
}

/// Number of fragments of the queue that are not closed.
pub open spec fn open_count(q: Seq<(PerimeterIndex, Seq<Coord>)>) -> nat
    decreases q.len(),
{
    if q.len() == 0 {
        0
    } else {
        open_count(q.drop_last()) + if is_closed(q.last().1) {
            0nat
        } else {
            1nat
        }
    }
}

/// Scanning the first `i` entries from the back, the index of the first
/// fragment whose start comes after `tail` and before `start`; -1 if none.
pub open spec fn find_next(
    q: Seq<(PerimeterIndex, Seq<Coord>)>,
    tail: PerimeterIndex,
    start: PerimeterIndex,
    i: int,
) -> int
    decreases i,
{
    if i <= 0 {
        -1
    } else if spec_is_index_closer(tail, q[i - 1].0, start) {
        i - 1
    } else {
        find_next(q, tail, start, i - 1)
    }
}

pub proof fn lemma_find_next_range(
    q: Seq<(PerimeterIndex, Seq<Coord>)>,
    tail: PerimeterIndex,
    start: PerimeterIndex,
    i: int,
)
    requires
        i >= 0,
    ensures
        -1 <= find_next(q, tail, start, i) < i,
    decreases i,
{
    if i > 0 {
        lemma_find_next_range(q, tail, start, i - 1);
    }
}

pub proof fn lemma_open_count_push(q: Seq<(PerimeterIndex, Seq<Coord>)>, f: (PerimeterIndex, Seq<Coord>))
    ensures
        open_count(q.push(f)) == open_count(q) + if is_closed(f.1) {
            0nat
        } else {
            1nat
        },
{
    assert(q.push(f).drop_last() =~= q);
}

pub proof fn lemma_open_count_remove(q: Seq<(PerimeterIndex, Seq<Coord>)>, k: int)
    requires
        0 <= k < q.len(),
    ensures
        open_count(q.remove(k)) <= open_count(q),
    decreases q.len(),
{
    if k == q.len() - 1 {
        assert(q.remove(k) =~= q.drop_last());
    } else {
        let d = q.drop_last();
        lemma_open_count_remove(d, k);
        assert(q.remove(k) =~= d.remove(k).push(q.last()));
        lemma_open_count_push(d.remove(k), q.last());
    }
}

/// The reconnection of ring fragments through the window's corners.
///
/// The fragment at the back of the queue (lowest start position) is taken.
/// A closed one is emitted. Otherwise the fragment whose start comes next
/// when walking the boundary forward from its end, before coming back to its
/// own start, is appended to it through the corners in between; when there is
/// none, the fragment is closed on itself through the corners back to its
/// start. The result goes back onto the queue.
pub open spec fn stitch(
    r: Rect,
    q: Seq<(PerimeterIndex, Seq<Coord>)>,
    out: Seq<Seq<Coord>>,
) -> Seq<Seq<Coord>>
    decreases 2 * q.len() + open_count(q),
{
    if q.len() == 0 {
        out
    } else {
        let start = q.last().0;
        let a = q.last().1;
        let rest = q.drop_last();
        proof {
            assert(rest.push(q.last()) =~= q);
            lemma_open_count_push(rest, q.last());
        }
        if is_closed(a) {
            stitch(r, rest, out.push(a))
        } else {
            let tail = r.spec_perimeter_index(a.last());
            let k = find_next(rest, tail, start, rest.len() as int);
            proof {
                lemma_find_next_range(rest, tail, start, rest.len() as int);
            }
            if k >= 0 {
                let b = rest[k];
                let joined = a + r.spec_corner_nodes_between(tail, b.0) + b.1;
                proof {
                    lemma_open_count_remove(rest, k);
                    lemma_open_count_push(rest.remove(k), (start, joined));
                }
                stitch(r, rest.remove(k).push((start, joined)), out)
            } else {
                let closed = a + r.spec_corner_nodes_between(tail, start) + seq![a[0]];
                proof {
                    assert(closed[0] == a[0]);
                    assert(closed.last() == a[0]);
                    lemma_open_count_push(rest, (start, closed));
                }
                stitch(r, rest.push((start, closed)), out)
            }
        }
    }
}

/// The chain holds at least three different coordinates.
pub open spec fn has_three_distinct(c: Seq<Coord>) -> bool {
    c.len() > 0 && exists|j: int, k: int|
        #![trigger c[j], c[k]]
        0 <= j < c.len() && 0 <= k < c.len() && c[j] != c[0] && c[k] != c[0] && c[k] != c[j]
}

/// Rings fit for output that also enclose some area: each has at least three
/// different coordinates.
pub open spec fn proper_rings(out: Seq<Seq<Coord>>) -> bool {
    rings_ok(out) && forall|i: int| 0 <= i < out.len() ==> has_three_distinct(#[trigger] out[i])
}

/// Fragments fit for stitching: positions on the perimeter scale, at least
/// two bounded coordinates each.
pub open spec fn fragments_ok(q: Seq<(PerimeterIndex, Seq<Coord>)>) -> bool {
    forall|i: int|
        0 <= i < q.len() ==> (#[trigger] q[i]).0.side <= 4 && q[i].1.len() >= 2 && all_bounded(
            q[i].1,
            COORD_LIMIT as int,
        )
}

/// Rings fit for output: closed, at least two bounded coordinates each.
pub open spec fn rings_ok(out: Seq<Seq<Coord>>) -> bool {
    forall|i: int|
        0 <= i < out.len() ==> is_closed(#[trigger] out[i]) && out[i].len() >= 2 && all_bounded(
            out[i],
            COORD_LIMIT as int,
        )
}

proof fn lemma_corners_bounded(r: Rect, a: PerimeterIndex, b: PerimeterIndex)
    requires
        r.wf(),
        a.side <= 4,
        b.side <= 4,
    ensures
        all_bounded(r.spec_corner_nodes_between(a, b), COORD_LIMIT as int),
{
}

/// Every ring that stitching emits is closed, has at least two coordinates,
/// and stays within the coordinate bound.
pub proof fn lemma_stitch_rings_ok(
    r: Rect,
    q: Seq<(PerimeterIndex, Seq<Coord>)>,
    out: Seq<Seq<Coord>>,
)
    requires
        r.wf(),
        fragments_ok(q),
        rings_ok(out),
    ensures
        rings_ok(stitch(r, q, out)),
    decreases 2 * q.len() + open_count(q),
{
    if q.len() > 0 {
        let start = q.last().0;
        let a = q.last().1;
        let rest = q.drop_last();
        assert(rest.push(q.last()) =~= q);
        lemma_open_count_push(rest, q.last());
        assert(q[q.len() - 1] == q.last());
        assert(fragments_ok(rest)) by {
            assert forall|i: int| 0 <= i < rest.len() implies (#[trigger] rest[i]).0.side <= 4
                && rest[i].1.len() >= 2 && all_bounded(rest[i].1, COORD_LIMIT as int) by {
                assert(rest[i] == q[i]);
            }
        }
        if is_closed(a) {
            assert(out.push(a).last() == a);
            lemma_stitch_rings_ok(r, rest, out.push(a));
        } else {
            let tail = r.spec_perimeter_index(a.last());
            let k = find_next(rest, tail, start, rest.len() as int);
            lemma_find_next_range(rest, tail, start, rest.len() as int);
            if k >= 0 {
                let b = rest[k];
                let corners = r.spec_corner_nodes_between(tail, b.0);
                let joined = a + corners + b.1;
                assert(a.last().bounded(COORD_LIMIT as int));
                lemma_corners_bounded(r, tail, b.0);
                assert(all_bounded(joined, COORD_LIMIT as int)) by {
                    assert forall|i: int| 0 <= i < joined.len() implies #[trigger] joined[i].bounded(
                        COORD_LIMIT as int,
                    ) by {
                        if i < a.len() {
                        } else if i < a.len() + corners.len() {
                            assert(joined[i] == corners[i - a.len()]);
                        } else {
                            assert(joined[i] == b.1[i - a.len() - corners.len()]);
                        }
                    }
                }
                lemma_open_count_remove(rest, k);
                lemma_open_count_push(rest.remove(k), (start, joined));
                let q2 = rest.remove(k).push((start, joined));
                assert(fragments_ok(q2)) by {
                    assert forall|i: int| 0 <= i < q2.len() implies (#[trigger] q2[i]).0.side <= 4
                        && q2[i].1.len() >= 2 && all_bounded(q2[i].1, COORD_LIMIT as int) by {
                        if i < k {
                            assert(q2[i] == rest[i]);
                        } else if i < q2.len() - 1 {
                            assert(q2[i] == rest[i + 1]);
                        }
                    }
                }
                lemma_stitch_rings_ok(r, q2, out);
            } else {
                let corners = r.spec_corner_nodes_between(tail, start);
                let closed = a + corners + seq![a[0]];
                assert(a.last().bounded(COORD_LIMIT as int));
                lemma_corners_bounded(r, tail, start);
                assert(all_bounded(closed, COORD_LIMIT as int)) by {
                    assert forall|i: int| 0 <= i < closed.len() implies #[trigger] closed[i].bounded(
                        COORD_LIMIT as int,
                    ) by {
                        if i < a.len() {
                        } else if i < a.len() + corners.len() {
                            assert(closed[i] == corners[i - a.len()]);
                        } else {
                            assert(closed[i] == a[0]);
                        }
                    }
                }
                lemma_open_count_push(rest, (start, closed));
                let q2 = rest.push((start, closed));
                assert(fragments_ok(q2)) by {
                    assert forall|i: int| 0 <= i < q2.len() implies (#[trigger] q2[i]).0.side <= 4
                        && q2[i].1.len() >= 2 && all_bounded(q2[i].1, COORD_LIMIT as int) by {
                        if i < rest.len() {
                            assert(q2[i] == rest[i]);
                        }
                    }
                }
                lemma_stitch_rings_ok(r, q2, out);
            }
        }
    }
}

/// Sorts fragments by descending start position, keeping the order of equal
/// positions.
pub fn sort_fragments(v: Vec<Fragment>) -> (r: Vec<Fragment>)
    ensures
        queue_view(r@) == sort_desc(queue_view(v@)),
{
    let ghost orig = queue_view(v@);
    let mut v = v;
    let mut out: Vec<Fragment> = Vec::new();
    let ghost mut i: int = 0;
    assert(orig.take(0) =~= Seq::<(PerimeterIndex, Seq<Coord>)>::empty());
    assert(queue_view(out@) =~= Seq::<(PerimeterIndex, Seq<Coord>)>::empty());
    while v.len() > 0
        invariant
            0 <= i <= orig.len(),
            i + v.len() == orig.len(),
            queue_view(v@) == orig.skip(i),
            queue_view(out@) == sort_desc(orig.take(i)),
        decreases v.len(),
    {
        let ghost before = v@;
        let item = v.remove(0);
        assert(queue_view(v@) =~= orig.skip(i + 1)) by {
            assert forall|k: int| 0 <= k < v.len() implies #[trigger] queue_view(v@)[k] == orig.skip(
                i + 1,
            )[k] by {
                assert(v@[k] == before[k + 1]);
                assert(queue_view(before)[k + 1] == orig.skip(i)[k + 1]);
            }
        }
        assert(queue_view(before)[0] == orig.skip(i)[0]);
        let ghost sorted = queue_view(out@);
        let ghost key = item.0;
        assert(fragment_view(item) == orig[i]);
        let mut j: usize = 0;
        while j < out.len() && !out[j].0.lt(&item.0)
            invariant
                j <= out.len(),
                sorted == queue_view(out@),
                key == item.0,
                insert_pos(sorted, key, 0) == insert_pos(sorted, key, j as int),
            decreases out.len() - j,
        {
            j = j + 1;
        }
        assert(insert_pos(sorted, key, j as int) == j);
        out.insert(j, item);
        assert(orig.take(i + 1).drop_last() =~= orig.take(i));
        assert(queue_view(out@) =~= sorted.insert(j as int, fragment_view(item)));
        proof {
            i = i + 1;
        }
    }
    assert(orig.take(i) =~= orig);
    out
}

pub proof fn lemma_insert_pos_range(s: Seq<(PerimeterIndex, Seq<Coord>)>, k: PerimeterIndex, i: int)
    requires
        0 <= i <= s.len(),
    ensures
        i <= insert_pos(s, k, i) <= s.len(),
    decreases s.len() - i,
{
    if i < s.len() && !s[i].0.spec_lt(k) {
        lemma_insert_pos_range(s, k, i + 1);
    }
}

/// Sorting keeps the fragments, so it keeps them fit for stitching.
pub proof fn lemma_sort_fragments_ok(s: Seq<(PerimeterIndex, Seq<Coord>)>)
    requires
        fragments_ok(s),
    ensures
        fragments_ok(sort_desc(s)),
        sort_desc(s).len() == s.len(),
    decreases s.len(),
{
    if s.len() > 0 {
        let d = s.drop_last();
        assert(fragments_ok(d)) by {
            assert forall|i: int| 0 <= i < d.len() implies (#[trigger] d[i]).0.side <= 4
                && d[i].1.len() >= 2 && all_bounded(d[i].1, COORD_LIMIT as int) by {
                assert(d[i] == s[i]);
            }
        }
        lemma_sort_fragments_ok(d);
        let t = sort_desc(d);
        let p = insert_pos(t, s.last().0, 0);
        lemma_insert_pos_range(t, s.last().0, 0);
        let u = t.insert(p, s.last());
        assert(s[s.len() - 1] == s.last());
        assert forall|i: int| 0 <= i < u.len() implies (#[trigger] u[i]).0.side <= 4
            && u[i].1.len() >= 2 && all_bounded(u[i].1, COORD_LIMIT as int) by {
            if i < p {
                assert(u[i] == t[i]);
            } else if i > p {
                assert(u[i] == t[i - 1]);
            }
        }
    }
}

/// Index of the fragment that `find_next` picks among all of `q`.
pub fn find_next_fragment(
    r: &Rect,
    q: &Vec<Fragment>,
    tail: PerimeterIndex,
    start: PerimeterIndex,
) -> (res: Option<usize>)
    ensures
        match res {
            Some(k) => k == find_next(queue_view(q@), tail, start, q.len() as int) && k < q.len(),
            None => find_next(queue_view(q@), tail, start, q.len() as int) == -1,
        },
{
    let ghost qv = queue_view(q@);
    let mut i: usize = q.len();
    while i > 0
        invariant
            i <= q.len(),
            qv == queue_view(q@),
            find_next(qv, tail, start, q.len() as int) == find_next(qv, tail, start, i as int),
        decreases i,
    {
        assert(qv[i - 1].0 == q@[i - 1].0);
        if r.is_index_closer(tail, q[i - 1].0, start) {
            return Some(i - 1);
        }
        i = i - 1;
    }
    None
}

} // verus!
