use klippa::geom::{Coord, Line};
use klippa::rect::{PerimeterIndex, Rect};

fn c(x: i64, y: i64) -> Coord {
    Coord { x, y }
}

fn l(x0: i64, y0: i64, x1: i64, y1: i64) -> Line {
    Line::new(c(x0, y0), c(x1, y1))
}

/// The perimeter index as a fraction of the walk: side plus the share of the
/// side walked.
fn index_value(rect: &Rect, p: &Coord) -> f64 {
    let idx = rect.perimeter_index(p);
    idx.side as f64 + idx.offset as f64 / rect.side_length(idx.side) as f64
}

// Coordinates are scaled by 100 so that the nudged corner case stays on the
// integer grid.
fn check_clip_single() {
    let rect = Rect::new(0, 0, 400, 400);

    // should be contained fully
    assert!(rect.clip_segment(&l(0, 0, 100, 100)).is_some());

    // should be contained fully
    assert!(rect.clip_segment(&l(0, 0, 400, 400)).is_some());

    // should be clipped twice
    assert_eq!(rect.clip_segment(&l(-100, 100, 500, 100)), Some(l(0, 100, 400, 100)));

    // should be clipped one time
    assert_eq!(rect.clip_segment(&l(100, 100, 100, 500)), Some(l(100, 100, 100, 400)));

    // should be clipped one time
    assert_eq!(rect.clip_segment(&l(0, 0, 500, 500)), Some(l(0, 0, 400, 400)));

    // should be clipped twice
    assert_eq!(rect.clip_segment(&l(-100, -100, 500, 500)), Some(l(0, 0, 400, 400)));

    // should be left out
    assert!(rect.clip_segment(&l(500, 500, 600, 600)).is_none());

    // corner-crossing case: should be left out
    assert_eq!(rect.clip_segment(&l(-100, 100, 100, -100)), None);

    // cross corner other time with ever so slight nudge
    assert!(rect.clip_segment(&l(-100, 100, 101, -100)).is_some());
}

fn check_clip_multi() {
    let rect = Rect::new(0, 0, 4, 4);

    assert_eq!(
        rect.clip_segments(&vec![l(-1, 2, 1, 2), l(1, 2, 5, 2)]),
        vec![vec![l(0, 2, 1, 2), l(1, 2, 4, 2)]]
    );

    assert_eq!(
        rect.clip_segments(&vec![l(-1, 2, 1, 2), l(1, 2, 5, 2), l(5, 2, 7, 7)]),
        vec![vec![l(0, 2, 1, 2), l(1, 2, 4, 2)]]
    );

    assert_eq!(
        rect.clip_segments(&vec![l(1, 2, 5, 2), l(5, 2, 3, 4)]),
        vec![vec![l(4, 3, 3, 4)], vec![l(1, 2, 4, 2)]]
    );

    assert_eq!(rect.clip_segments(&vec![l(2, 4, 4, 2), l(4, 2, 2, 0)]).len(), 1);

    assert_eq!(rect.clip_segments(&vec![l(2, 4, 6, 2), l(6, 2, 2, 0)]).len(), 2);

    // non-clipping segments
    assert!(rect.clip_segments(&vec![l(5, 2, 5, 4), l(5, 4, 7, 0)]).is_empty());
}

/// The four sides of the box with corners `(x0, y0)` and `(x1, y1)`, in the
/// order `(x0, y0)`, `(x1, y0)`, `(x1, y1)`, `(x0, y1)`; the corners need not
/// be ordered.
fn box_sides(x0: i64, y0: i64, x1: i64, y1: i64) -> Vec<Line> {
    vec![l(x0, y0, x1, y0), l(x1, y0, x1, y1), l(x1, y1, x0, y1), l(x0, y1, x0, y0)]
}

fn check_self_crossing_segments() {
    let rect = Rect::new(0, 0, 4, 4);

    assert_eq!(
        rect.clip_segments(&vec![l(-1, -1, 5, 5), l(5, 5, 5, -1), l(5, -1, -1, 5)]),
        vec![vec![l(4, 0, 0, 4)], vec![l(0, 0, 4, 4)]]
    );
}

// The boundary is walked clockwise from (x0, y0): up the left side first.
fn check_perimeter_index_walk(points: &[((i64, i64), f64)]) {
    let rect = Rect::new(0, 0, 4, 4);
    for ((x, y), expected) in points {
        assert_eq!(index_value(&rect, &c(*x, *y)), *expected);
    }

    // test finding corner nodes between indexes (sides 40 long)
    let rect = Rect::new(0, 0, 40, 40);
    let at = |side: u64, offset: i64| PerimeterIndex { side, offset };
    assert_eq!(rect.corner_nodes_between(at(0, 4), at(1, 4)).len(), 1);
    assert_eq!(rect.corner_nodes_between(at(1, 4), at(0, 4)).len(), 3);
    assert_eq!(rect.corner_nodes_between(at(3, 36), at(0, 4)).len(), 1);
}

#[test]
fn rect_test_clip_single() {
    check_clip_single();
}

#[test]
fn test_rect_test_clip_single() {
    check_clip_single();
}

#[test]
fn rect_test_clip_multi() {
    check_clip_multi();
}

#[test]
fn test_rect_test_clip_multi() {
    check_clip_multi();
}

#[test]
fn rect_test_another_rect() {
    let rect = Rect::new(0, 0, 4, 4);

    // make another larger rectangle and tests against it's segments
    let segments = Rect::new(-1, -1, 5, 5).lines().to_vec();
    assert!(rect.clip_segments(&segments).is_empty());

    // make small rect fully inside
    let segments = Rect::new(1, 1, 3, 3).lines().to_vec();
    assert_eq!(rect.clip_segments(&segments), vec![segments.clone()]);

    // make small rect partially inside
    let segments = box_sides(1, 5, 3, 1);
    assert_eq!(
        rect.clip_segments(&segments),
        vec![vec![l(3, 4, 3, 1), l(3, 1, 1, 1), l(1, 1, 1, 4)]]
    );

    // another small rect partially inside
    let segments = box_sides(1, 5, 5, 1);
    assert_eq!(rect.clip_segments(&segments), vec![vec![l(4, 1, 1, 1), l(1, 1, 1, 4)]]);

    // corner-crossing rectangle should produce no segments
    let segments = Rect::new(-1, 4, 0, 5).lines().to_vec();
    assert!(rect.clip_segments(&segments).is_empty());
}

#[test]
fn test_rect_test_another_rect() {
    let rect = Rect::new(0, 0, 4, 4);

    // make another larger rectangle and tests against it's segments
    let segments = Rect::new(-1, -1, 5, 5).lines().to_vec();
    assert!(rect.clip_segments(&segments).is_empty());

    // make small rect fully inside
    let segments = Rect::new(1, 1, 3, 3).lines().to_vec();
    assert_eq!(rect.clip_segments(&segments), vec![segments.clone()]);

    // corner-crossing rectangle should produce no segments
    let segments = Rect::new(-1, 4, 0, 5).lines().to_vec();
    assert!(rect.clip_segments(&segments).is_empty());
}

#[test]
fn rect_test_self_crossing_segments() {
    check_self_crossing_segments();
}

#[test]
fn test_rect_test_self_crossing_segments() {
    check_self_crossing_segments();
}

#[test]
fn rect_test_perimeter_index() {
    check_perimeter_index_walk(&[
        ((0, 0), 0.0),
        ((3, 0), 3.25),
        ((4, 4), 2.0),
        ((2, 4), 1.5),
        ((0, 4), 1.0),
        ((0, 1), 0.25),
    ]);
}

#[test]
fn test_rect_test_perimeter_index() {
    check_perimeter_index_walk(&[
        ((0, 0), 0.0),
        ((3, 0), 3.25),
        ((4, 0), 3.0),
        ((2, 0), 3.5),
        ((0, 4), 1.0),
        ((0, 1), 0.25),
    ]);
}

#[test]
fn perimeter_index_grows_along_the_walk() {
    let rect = Rect::new(0, 0, 4, 2);
    let walk = [
        c(0, 0),
        c(0, 1),
        c(0, 2),
        c(1, 2),
        c(4, 2),
        c(4, 1),
        c(4, 0),
        c(3, 0),
        c(1, 0),
    ];
    let mut last: Option<f64> = None;
    for p in walk.iter() {
        let v = index_value(&rect, p);
        assert!((0.0..4.0).contains(&v));
        if let Some(prev) = last {
            assert!(prev < v, "{prev} then {v}");
        }
        last = Some(v);
    }
    // a point off the boundary is put after the walk
    assert_eq!(rect.perimeter_index(&c(2, 1)).side, 4);
}

#[test]
fn corner_nodes_follow_the_walk() {
    let rect = Rect::new(0, 0, 4, 4);
    let from = rect.perimeter_index(&c(0, 2));
    let to = rect.perimeter_index(&c(2, 0));
    assert_eq!(rect.corner_nodes_between(from, to), vec![c(0, 4), c(4, 4), c(4, 0)]);
    assert_eq!(rect.corner_nodes_between(to, from), vec![c(0, 0)]);
    assert!(rect.corner_nodes_between(from, from).is_empty());
}

#[test]
fn scenario_segment_clipped_twice() {
    let rect = Rect::new(0, 0, 4, 4);
    assert_eq!(rect.clip_segment(&l(-1, 1, 5, 1)), Some(l(0, 1, 4, 1)));
}

#[test]
fn scenario_segment_clipped_once() {
    let rect = Rect::new(0, 0, 4, 4);
    assert_eq!(rect.clip_segment(&l(1, 1, 1, 5)), Some(l(1, 1, 1, 4)));
}

#[test]
fn scenario_corner_graze_and_nudge() {
    let rect = Rect::new(0, 0, 400, 400);
    assert_eq!(rect.clip_segment(&l(-100, 100, 100, -100)), None);
    assert!(rect.clip_segment(&l(-100, 100, 101, -100)).is_some());
    // nudged on the other side, and nudged by less on a finer grid
    assert!(rect.clip_segment(&l(-100, 100, 99, -100)).is_none());
    let fine = Rect::new(0, 0, 4_000_000, 4_000_000);
    assert!(fine
        .clip_segment(&l(-1_000_000, 1_000_000, 1_000_001, -1_000_000))
        .is_some());
}

#[test]
fn entering_segment_keeps_its_direction() {
    let rect = Rect::new(0, 0, 4, 4);
    // outside to inside: starts on the boundary, ends at the inside end
    assert_eq!(rect.clip_segment(&l(-2, 2, 2, 2)), Some(l(0, 2, 2, 2)));
    assert_eq!(rect.clip_segment(&l(2, 6, 2, 1)), Some(l(2, 4, 2, 1)));
    // inside to outside keeps the inside start
    assert_eq!(rect.clip_segment(&l(2, 1, 2, 6)), Some(l(2, 1, 2, 4)));
    // a slanted entry is rounded toward the outside start
    assert_eq!(rect.clip_segment(&l(-3, 0, 3, 3)), Some(l(0, 1, 3, 3)));
}

#[test]
fn segment_outside_and_touching_are_dropped() {
    let rect = Rect::new(0, 0, 4, 4);
    assert_eq!(rect.clip_segment(&l(5, 0, 5, 4)), None);
    // touches the boundary at its own end only
    assert_eq!(rect.clip_segment(&l(6, 2, 4, 2)), None);
    // starts on the boundary and leaves
    assert_eq!(rect.clip_segment(&l(4, 2, 6, 2)), None);
}

#[test]
fn clip_point_keeps_boundary() {
    let rect = Rect::new(0, 0, 4, 4);
    assert_eq!(rect.clip_point(&c(4, 0)), Some(c(4, 0)));
    assert_eq!(rect.clip_point(&c(2, 2)), Some(c(2, 2)));
    assert_eq!(rect.clip_point(&c(5, 2)), None);
}

#[test]
fn clip_segments_of_nothing() {
    let rect = Rect::new(0, 0, 4, 4);
    assert!(rect.clip_segments(&vec![]).is_empty());
}

#[test]
fn clip_segments_joins_chain_over_the_end() {
    let rect = Rect::new(0, 0, 4, 4);
    // the chain leaves and comes back; the part after the gap continues the
    // part before it cyclically
    let segs = vec![l(1, 1, 2, 1), l(2, 1, 6, 1), l(6, 1, 6, 3), l(6, 3, 1, 3), l(1, 3, 1, 1)];
    assert_eq!(
        rect.clip_segments(&segs),
        vec![vec![l(4, 3, 1, 3), l(1, 3, 1, 1), l(1, 1, 2, 1), l(2, 1, 4, 1)]]
    );
}
