use klippa::geom::{Coord, Line, LineString, Reverse};

fn c(x: i64, y: i64) -> Coord {
    Coord { x, y }
}

fn l(x0: i64, y0: i64, x1: i64, y1: i64) -> Line {
    Line::new(c(x0, y0), c(x1, y1))
}

// Coordinates are scaled by 10 so that every case stays on the integer grid.
#[test]
fn test_intersection() {
    //  |
    // -x-
    //  |
    let a = l(0, -40, 0, 40);
    let b = l(10, 0, -10, 0);
    assert_eq!(a.intersection(&b), Some(c(0, 0)));
    assert_eq!(a.intersection(&b.reverse()), Some(c(0, 0)));

    //  |/
    //  x
    // /|
    let a = l(0, 0, 0, 40);
    let b = l(-10, 0, 10, 40);
    assert_eq!(a.intersection(&b), Some(c(0, 20)));
    assert_eq!(a.intersection(&b.reverse()), Some(c(0, 20)));

    //   /
    // -x---
    // /
    let a = l(0, 0, 40, 0);
    let b = l(40, 10, 0, -10);
    assert!(a.intersection(&b).is_some());
    assert!(a.intersection(&b.reverse()).is_some());

    //    |
    // ---x
    //
    let a = l(0, 0, 40, 0);
    let b = l(40, 40, 40, 0);
    assert!(!a.intersection(&b).is_some());
    assert!(!a.intersection(&b.reverse()).is_some());

    // Non-intersecting tests
    let a = l(0, 0, 0, 40);
    let b = l(10, 10, 1, 10);
    assert!(!a.intersection(&b).is_some());
    assert!(!a.intersection(&b.reverse()).is_some());

    let a = l(0, 0, 0, 40);
    let b = l(10, 10, 40, 40);
    assert!(!a.intersection(&b).is_some());
    assert!(!a.intersection(&b.reverse()).is_some());
}

#[test]
fn intersection_rounds_toward_start() {
    let a = l(0, 0, 0, 10);
    // meets x = 0 at y = 1/3, whichever way it runs
    assert_eq!(a.intersection(&l(-1, 0, 2, 1)), Some(c(0, 0)));
    assert_eq!(a.intersection(&l(2, 1, -1, 0)), Some(c(0, 1)));
    // meets x = 0 at y = 13/3
    assert_eq!(a.intersection(&l(-1, 5, 2, 3)), Some(c(0, 5)));
    assert_eq!(a.intersection(&l(2, 3, -1, 5)), Some(c(0, 4)));
    // meets x = 0 exactly at y = 4
    assert_eq!(a.intersection(&l(-1, 5, 2, 2)), Some(c(0, 4)));
    // beyond the end of the vertical segment
    assert_eq!(a.intersection(&l(-1, 11, 1, 13)), None);
    // touching at the crossing segment's start
    assert_eq!(a.intersection(&l(0, 5, 3, 5)), None);
}

#[test]
fn manhattan_distance() {
    assert_eq!(c(1, 2).manhattan_dist(&c(-2, 6)), 7);
    assert_eq!(c(3, 3).manhattan_dist(&c(3, 3)), 0);
}

#[test]
fn reverse_line_and_chain() {
    assert_eq!(l(1, 2, 3, 4).reverse(), l(3, 4, 1, 2));
    let ls = LineString(vec![c(0, 0), c(1, 0), c(1, 1)]);
    assert_eq!(ls.reverse(), LineString(vec![c(1, 1), c(1, 0), c(0, 0)]));
}

#[test]
fn point_in_ring() {
    let ring = LineString(vec![c(0, 0), c(0, 4), c(4, 4), c(4, 0), c(0, 0)]);
    assert!(c(2, 2).is_inside(&ring));
    assert!(!c(5, 2).is_inside(&ring));
    assert!(!c(2, 6).is_inside(&ring));
    let concave = LineString(vec![c(0, 0), c(0, 4), c(2, 2), c(4, 4), c(4, 0), c(0, 0)]);
    assert!(c(1, 1).is_inside(&concave));
    assert!(!c(2, 3).is_inside(&concave));
}
