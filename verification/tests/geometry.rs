//! Interior enumeration, its invariance under vertex-list rotation and
//! reversal, and the basic value types.

use icfpc::geom::{Direction, Move, Point};
use icfpc::map::Polygon;
use icfpc::utils::{Matrix, Range};

fn cells(p: &Polygon) -> Vec<(i32, i32)> {
    let mut v: Vec<(i32, i32)> = p
        .enumerate_points()
        .expect("polygon should enumerate")
        .iter()
        .map(|q| (q.x, q.y))
        .collect();
    v.sort();
    v.dedup();
    v
}

#[test]
fn enumerate_unit_square() {
    let p = Polygon(vec![
        Point { x: 0, y: 0 },
        Point { x: 1, y: 0 },
        Point { x: 1, y: 1 },
        Point { x: 0, y: 1 },
    ]);
    assert_eq!(cells(&p), vec![(0, 0)]);
}

#[test]
fn enumerate_l_shape() {
    // The L-shaped room: two columns of three cells plus a 1x2 tab.
    let p = Polygon(vec![
        Point { x: 0, y: 0 },
        Point { x: 2, y: 0 },
        Point { x: 2, y: 1 },
        Point { x: 3, y: 1 },
        Point { x: 3, y: 3 },
        Point { x: 0, y: 3 },
    ]);
    let got = cells(&p);
    assert_eq!(got.len(), 8);
    assert!(got.contains(&(0, 0)));
    assert!(got.contains(&(2, 2)));
    assert!(!got.contains(&(2, 0)));
}

#[test]
fn enumerate_rotation_and_orientation_invariant() {
    let vs = vec![
        Point { x: 0, y: 0 },
        Point { x: 2, y: 0 },
        Point { x: 2, y: 1 },
        Point { x: 3, y: 1 },
        Point { x: 3, y: 3 },
        Point { x: 0, y: 3 },
    ];
    let base = cells(&Polygon(vs.clone()));
    for k in 0..vs.len() {
        let mut rotated: Vec<Point> = vs[k..].to_vec();
        rotated.extend_from_slice(&vs[..k]);
        assert_eq!(cells(&Polygon(rotated.clone())), base);
        rotated.reverse();
        assert_eq!(cells(&Polygon(rotated)), base);
    }
}

#[test]
fn enumerate_rejects_open_outline() {
    // Two horizontal edges at distinct heights over column 0 are needed;
    // a degenerate outline with an odd crossing count is refused.
    let p = Polygon(vec![
        Point { x: 0, y: 0 },
        Point { x: 1, y: 0 },
        Point { x: 1, y: 1 },
    ]);
    assert!(p.enumerate_points().is_none());
}

#[test]
fn direction_convert_round_trip() {
    let dirs = [Direction::Right, Direction::Up, Direction::Left, Direction::Down];
    let p = Point { x: 2, y: -1 };
    for d in dirs {
        let c = d.convert(p);
        assert_eq!(d.reconvert(c), p);
        assert_eq!(d.turn_left().turn_right(), d);
    }
    assert_eq!(Direction::Up.convert(Point { x: 1, y: 0 }), Point { x: 0, y: 1 });
}

#[test]
fn point_moves() {
    let p = Point { x: 3, y: 4 };
    assert_eq!(p.move_with(&Move::MoveUp), Point { x: 3, y: 5 });
    assert_eq!(p.move_with(&Move::MoveLeft).revert_with(&Move::MoveLeft), p);
    assert_eq!(p.move_with(&Move::TurnLeft), p);
}

#[test]
fn polygon_extent() {
    let p = Polygon(vec![
        Point { x: 0, y: 0 },
        Point { x: 4, y: 0 },
        Point { x: 4, y: 2 },
        Point { x: 0, y: 2 },
    ]);
    assert_eq!(p.compute_width(), 5);
    assert_eq!(p.compute_height(), 3);
    assert_eq!(p.len(), 4);
    assert!(!p.is_empty());
}

#[test]
fn matrix_get_set() {
    let mut m: Matrix<bool> = Matrix::new(3, 2, false);
    assert_eq!(m.get(Point { x: 2, y: 1 }), Some(false));
    assert_eq!(m.get(Point { x: 3, y: 0 }), None);
    assert_eq!(m.get(Point { x: -1, y: 0 }), None);
    m.set(Point { x: 2, y: 1 }, true);
    assert_eq!(m.get(Point { x: 2, y: 1 }), Some(true));
    assert_eq!(m.get(Point { x: 1, y: 1 }), Some(false));
    assert_eq!(m.try_set(Point { x: 9, y: 9 }, true), None);
    assert_eq!(m.try_set(Point { x: 0, y: 0 }, true), Some(false));
}

#[test]
fn range_operations() {
    let r = Range::new(2, 6);
    assert_eq!(r.len(), 4);
    assert!(!r.is_empty());
    assert!(r.contains(2) && r.contains(5) && !r.contains(6));
    assert!(r.contains_all(&[2, 3, 5]));
    assert!(!r.contains_all(&[2, 6]));
    assert!(r.intersect(Range::new(5, 9)));
    assert!(!r.intersect(Range::new(6, 9)));
    let (a, b) = r.split(4);
    assert_eq!((a.start, a.end), (2, 4));
    assert_eq!((b.start, b.end), (5, 6));
    assert_eq!(r.remove_begin(), Range::new(3, 6));
    assert_eq!(r.remove_end(), Range::new(2, 5));
}
