use bsptess::bsp::{Bsp, BspKey, BspNode};
use bsptess::frac::Frac;
use bsptess::geometry::{Polygon, Vec2};

fn fr(num: i64, den: i64) -> Frac {
    Frac::new(num, den).unwrap()
}

fn v2(xn: i64, xd: i64, yn: i64, yd: i64) -> Vec2 {
    Vec2::new(fr(xn, xd), fr(yn, yd))
}

fn unit_square() -> Polygon {
    Polygon::new_rect(v2(0, 1, 0, 1), v2(1, 1, 1, 1))
}

fn frac_to_f64(f: Frac) -> f64 {
    f.num as f64 / f.den as f64
}

fn polygon_area(p: &Polygon) -> f64 {
    let n = p.vertices.len();
    let mut sum = 0.0;
    for i in 0..n {
        let a = &p.vertices[i];
        let b = &p.vertices[(i + 1) % n];
        sum += frac_to_f64(a.x) * frac_to_f64(b.y) - frac_to_f64(b.x) * frac_to_f64(a.y);
    }
    (sum / 2.0).abs()
}

const C0: u32 = 10;
const C1: u32 = 20;
const C2: u32 = 30;

fn one_split_tree() -> Bsp<u32> {
    let mut tree = Bsp::new(C0);
    let did = tree.split_at_point(&v2(1, 2, 1, 2), &v2(1, 1, 0, 1), C1);
    assert!(did);
    tree
}

#[test]
fn fresh_tree_has_one_leaf() {
    let tree: Bsp<u32> = Bsp::new(C0);
    assert_eq!(tree.len(), 1);
    assert_eq!(*tree.get_at_point(&v2(1, 2, 1, 2)).unwrap(), C0);
    assert_eq!(tree.root_key(), BspKey(0));
}

#[test]
fn split_routes_each_side() {
    let tree = one_split_tree();
    assert_eq!(tree.len(), 3);
    assert_eq!(*tree.get_at_point(&v2(9, 10, 1, 2)).unwrap(), C1);
    assert_eq!(*tree.get_at_point(&v2(1, 10, 1, 2)).unwrap(), C0);
    // a point exactly on the split plane counts as the `<= 0` side
    assert_eq!(*tree.get_at_point(&v2(1, 2, 1, 2)).unwrap(), C0);
}

#[test]
fn point_location_is_deterministic() {
    let tree = one_split_tree();
    let p = v2(3, 4, 1, 3);
    let k1 = tree.leaf_index_for_point(&p).unwrap();
    let k2 = tree.leaf_index_for_point(&p).unwrap();
    assert_eq!(k1, k2);
}

#[test]
fn one_split_tiles_the_square_in_two_rectangles() {
    let tree = one_split_tree();
    let pairs = tree.visit_leaf_polygons(tree.root_key(), unit_square()).unwrap();
    assert_eq!(pairs.len(), 2);
    let mut total = 0.0;
    for (key, poly) in &pairs {
        assert_eq!(poly.vertices.len(), 4);
        let area = polygon_area(poly);
        assert!((area - 0.5).abs() < 1e-12);
        total += area;
        let value = *tree.leaf_value(*key).unwrap();
        let on_left = poly.vertices.iter().all(|v| frac_to_f64(v.x) <= 0.5);
        let on_right = poly.vertices.iter().all(|v| frac_to_f64(v.x) >= 0.5);
        if value == C0 {
            assert!(on_left);
        } else {
            assert_eq!(value, C1);
            assert!(on_right);
        }
    }
    assert!((total - 1.0).abs() < 1e-12);
}

#[test]
fn perpendicular_splits_make_five_nodes() {
    let mut tree = one_split_tree();
    let did = tree.split_at_point(&v2(1, 2, 1, 2), &v2(0, 1, 1, 1), C2);
    assert!(did);
    assert_eq!(tree.len(), 5);
    // the `> 0` side of the first split is untouched
    assert_eq!(*tree.get_at_point(&v2(9, 10, 1, 2)).unwrap(), C1);
    // the `<= 0` side is now split by `y = 1/2`
    assert_eq!(*tree.get_at_point(&v2(1, 10, 1, 10)).unwrap(), C0);
    assert_eq!(*tree.get_at_point(&v2(1, 10, 9, 10)).unwrap(), C2);
    // three leaves in the arena
    let pairs = tree.visit_leaf_polygons(tree.root_key(), unit_square()).unwrap();
    assert_eq!(pairs.len(), 3);
    let total: f64 = pairs.iter().map(|(_, p)| polygon_area(p)).sum();
    assert!((total - 1.0).abs() < 1e-12);
}

#[test]
fn deep_tiling_conserves_area() {
    let mut tree = Bsp::new(0u32);
    let splits = [
        (v2(1, 2, 1, 2), v2(1, 1, 1, 1)),
        (v2(1, 4, 1, 4), v2(1, 1, 0, 1)),
        (v2(3, 4, 3, 4), v2(0, 1, 1, 1)),
        (v2(1, 8, 1, 2), v2(0, 1, 1, 1)),
        (v2(1, 2, 1, 4), v2(1, 1, -1, 1)),
    ];
    for (i, (p, n)) in splits.iter().enumerate() {
        assert!(tree.split_at_point(p, n, (i + 1) as u32));
    }
    assert_eq!(tree.len(), 11);
    let pairs = tree.visit_leaf_polygons(tree.root_key(), unit_square()).unwrap();
    assert_eq!(pairs.len(), 6);
    let total: f64 = pairs.iter().map(|(_, p)| polygon_area(p)).sum();
    assert!((total - 1.0).abs() < 1e-9);
}

#[test]
fn get_at_point_mut_repaints_one_region() {
    let mut tree = one_split_tree();
    *tree.get_at_point_mut(&v2(9, 10, 1, 2)) = 99;
    assert_eq!(*tree.get_at_point(&v2(9, 10, 1, 2)).unwrap(), 99);
    assert_eq!(*tree.get_at_point(&v2(1, 10, 1, 2)).unwrap(), C0);
    assert_eq!(tree.len(), 3);
}

#[test]
fn leaf_value_rejects_internal_nodes() {
    let tree = one_split_tree();
    // after the split the root slot holds the internal node
    assert!(tree.leaf_value(BspKey(0)).is_none());
    assert!(tree.leaf_value(BspKey(1)).is_some());
    assert!(tree.leaf_value(BspKey(2)).is_some());
    assert!(tree.leaf_value(BspKey(7)).is_none());
    assert!(matches!(tree.nodes[0], BspNode::Inode(_)));
}

#[test]
fn out_of_bounds_arithmetic_is_reported() {
    let mut tree = one_split_tree();
    // the signed distance of this far point cannot be stored exactly
    let far = v2(3 << 60, 1, 0, 1);
    assert!(tree.leaf_index_for_point(&far).is_none());
    assert!(tree.get_at_point(&far).is_none());
    // a split whose plane offset cannot be stored leaves the tree unchanged
    let big = 1i64 << 61;
    let did = tree.split_at_point(&v2(big, 1, 0, 1), &v2(big, 1, 0, 1), 7);
    assert!(!did);
    assert_eq!(tree.len(), 3);
}
