use bsptess::frac::Frac;
use bsptess::geometry::{Plane, Polygon, Vec2};

fn fr(num: i64, den: i64) -> Frac {
    Frac::new(num, den).unwrap()
}

fn v2(xn: i64, xd: i64, yn: i64, yd: i64) -> Vec2 {
    Vec2::new(fr(xn, xd), fr(yn, yd))
}

fn same_value(a: Frac, b: Frac) -> bool {
    (a.num as i128) * (b.den as i128) == (b.num as i128) * (a.den as i128)
}

fn unit_square() -> Polygon {
    Polygon::new_rect(v2(0, 1, 0, 1), v2(1, 1, 1, 1))
}

/// The plane `x = 1/2`, directed toward growing `x`.
fn plane_x_half() -> Plane {
    Plane { normal: v2(1, 1, 0, 1), distance: fr(1, 2) }
}

fn frac_to_f64(f: Frac) -> f64 {
    f.num as f64 / f.den as f64
}

/// Shoelace area of a clockwise ring, as an absolute value.
fn polygon_area(p: &Polygon) -> f64 {
    let n = p.vertices.len();
    let mut sum = 0.0;
    for i in 0..n {
        let a = &p.vertices[i];
        let b = &p.vertices[(i + 1) % n];
        sum += frac_to_f64(a.x) * frac_to_f64(b.y) - frac_to_f64(b.x) * frac_to_f64(a.y);
    }
    (sum / 2.0).abs()
}

#[test]
fn new_rect_is_clockwise() {
    let p = unit_square();
    assert_eq!(p.vertices.len(), 4);
    assert_eq!(p.vertices[0], v2(0, 1, 0, 1));
    assert_eq!(p.vertices[1], v2(0, 1, 1, 1));
    assert_eq!(p.vertices[2], v2(1, 1, 1, 1));
    assert_eq!(p.vertices[3], v2(1, 1, 0, 1));
}

#[test]
fn distance_to_point_is_signed() {
    let pl = plane_x_half();
    let d = pl.distance_to_point(&v2(9, 10, 1, 2)).unwrap();
    assert!(same_value(d, fr(2, 5)));
    let d = pl.distance_to_point(&v2(1, 10, 1, 2)).unwrap();
    assert!(same_value(d, fr(-2, 5)));
    let d = pl.distance_to_point(&v2(1, 2, 1, 2)).unwrap();
    assert_eq!(d.num, 0);
}

#[test]
fn line_intersection_is_exact() {
    let pl = plane_x_half();
    let p = pl.line_intersection((v2(0, 1, 0, 1), v2(1, 1, 1, 1))).unwrap();
    assert!(same_value(p.x, fr(1, 2)));
    assert!(same_value(p.y, fr(1, 2)));
}

#[test]
fn line_intersection_requires_a_crossing() {
    let pl = plane_x_half();
    // both endpoints on the greater side
    assert!(pl.line_intersection((v2(3, 4, 0, 1), v2(1, 1, 1, 1))).is_none());
    // both endpoints on the `<= 0` side; a zero distance counts as `<= 0`
    assert!(pl.line_intersection((v2(1, 2, 0, 1), v2(0, 1, 1, 1))).is_none());
}

#[test]
fn clip_splits_unit_square_in_halves() {
    let square = unit_square();
    let pl = plane_x_half();
    let left = square.clip_against_plane(&pl, true).unwrap();
    let right = square.clip_against_plane(&pl, false).unwrap();
    assert_eq!(left.vertices.len(), 4);
    assert_eq!(right.vertices.len(), 4);
    assert!((polygon_area(&left) - 0.5).abs() < 1e-12);
    assert!((polygon_area(&right) - 0.5).abs() < 1e-12);
    // every left vertex has x <= 1/2, every right vertex x >= 1/2
    for v in &left.vertices {
        assert!(frac_to_f64(v.x) <= 0.5);
    }
    for v in &right.vertices {
        assert!(frac_to_f64(v.x) >= 0.5);
    }
}

#[test]
fn clip_plane_never_reached_keeps_all_vertices() {
    // the plane `x = 2` lies right of the square; with the clipped
    // side the greater one, nothing is clipped away
    let square = unit_square();
    let pl = Plane { normal: v2(1, 1, 0, 1), distance: fr(2, 1) };
    let kept = square.clip_against_plane(&pl, true).unwrap();
    assert_eq!(kept.vertices.len(), 4);
    for i in 0..4 {
        assert_eq!(kept.vertices[i], square.vertices[i]);
    }
}

#[test]
fn clip_plane_never_reached_other_side_drops_all_vertices() {
    // the whole square lies on the `<= 0` side of `x = 2`; discarding
    // that side leaves the empty polygon
    let square = unit_square();
    let pl = Plane { normal: v2(1, 1, 0, 1), distance: fr(2, 1) };
    let dropped = square.clip_against_plane(&pl, false).unwrap();
    assert_eq!(dropped.vertices.len(), 0);
}

#[test]
fn clip_empty_polygon_stays_empty() {
    let empty = Polygon { vertices: Vec::new() };
    let pl = plane_x_half();
    assert_eq!(pl.distance_to_point(&v2(0, 1, 0, 1)).is_some(), true);
    assert_eq!(empty.clip_against_plane(&pl, true).unwrap().vertices.len(), 0);
    assert_eq!(empty.clip_against_plane(&pl, false).unwrap().vertices.len(), 0);
}

#[test]
fn clip_boundary_vertices_survive_on_both_sides() {
    // a triangle with one edge exactly on the plane `x = 1/2`
    let tri = Polygon {
        vertices: vec![v2(1, 2, 0, 1), v2(1, 2, 1, 1), v2(1, 1, 1, 2)],
    };
    let pl = plane_x_half();
    let le = tri.clip_against_plane(&pl, true).unwrap();
    let gt = tri.clip_against_plane(&pl, false).unwrap();
    // the `<= 0` side keeps just the boundary edge (a degenerate ring);
    // the `> 0` side keeps the full triangle, boundary included
    assert!(le.vertices.iter().all(|v| same_value(v.x, fr(1, 2))));
    assert!((polygon_area(&gt) - polygon_area(&tri)).abs() < 1e-12);
    for v in &gt.vertices {
        assert!(frac_to_f64(v.x) >= 0.5);
    }
}

#[test]
fn dot_is_exact() {
    let d = v2(2, 3, 1, 2).dot(&v2(3, 1, 4, 1)).unwrap();
    assert!(same_value(d, fr(4, 1)));
}
