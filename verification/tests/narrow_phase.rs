use collisions::collidable::CollidableShape;
use collisions::quadtree::{possible_collision_between, Collision, Measure};
use collisions::util::{
    dist_line_pnt__closest_pnt, dist_poly_circ, dist_poly_circ__face__support,
    penetration__face__support, poly_contains_pnt, poly_contains_poly, support_pnt, SegmentRegion,
};

/// An integer that orders as `x` does and has its sign.
fn key(x: f32) -> i64 {
    let bits = (x + 0.0).to_bits() as i32;
    if bits < 0 {
        (bits ^ 0x7fff_ffff) as i64
    } else {
        bits as i64
    }
}

fn distance(ax: f32, ay: f32, bx: f32, by: f32) -> f32 {
    ((ax - bx) * (ax - bx) + (ay - by) * (ay - by)).sqrt()
}

fn keys(values: &[f32]) -> Vec<i64> {
    values.iter().map(|v| key(*v)).collect()
}

/// For each edge, whether the point lies left of where the edge passes the
/// point's height.
fn left_of_edges(vertx: &[f32], verty: &[f32], px: f32, py: f32) -> Vec<bool> {
    let n = vertx.len();
    let mut out = Vec::new();
    let mut j = n - 1;
    for i in 0..n {
        out.push(px < (vertx[j] - vertx[i]) * (py - verty[i]) / (verty[j] - verty[i]) + vertx[i]);
        j = i;
    }
    out
}

fn contains(vertx: &[f32], verty: &[f32], px: f32, py: f32) -> bool {
    poly_contains_pnt(&keys(verty), key(py), &left_of_edges(vertx, verty, px, py))
}

fn segment_distance(ax: f32, ay: f32, bx: f32, by: f32, px: f32, py: f32) -> f32 {
    let length_sqr = (ax - bx) * (ax - bx) + (ay - by) * (ay - by);
    let t = if length_sqr == 0.0 {
        0.0
    } else {
        ((px - ax) * (bx - ax) + (py - ay) * (by - ay)) / length_sqr
    };
    match dist_line_pnt__closest_pnt(key(length_sqr), key(t), key(1.0)) {
        SegmentRegion::Degenerate | SegmentRegion::BeforeStart => distance(px, py, ax, ay),
        SegmentRegion::BeyondEnd => distance(px, py, bx, by),
        SegmentRegion::Within => distance(px, py, ax + t * (bx - ax), ay + t * (by - ay)),
    }
}

#[test]
fn keys_keep_order_and_sign() {
    assert!(key(-2.5) < key(-1.0));
    assert!(key(-1.0) < key(0.0));
    assert_eq!(key(0.0), 0);
    assert_eq!(key(-0.0), 0);
    assert!(key(0.0) < key(0.4));
    assert!(key(0.4) < key(1.0));
    assert!(key(1.0) < key(f32::MAX));
    assert!(key(f32::MIN) < key(-1.0e30));
}

#[test]
fn overlapping_circles_collide() {
    let (ax, ay, ar) = (0.0f32, 0.0f32, 1.0f32);
    let (bx, by, br) = (1.5f32, 0.0f32, 1.0f32);
    let d = distance(ax, ay, bx, by);
    let measure = Measure::Circles { distance: key(d), reach: key(ar + br) };
    let mut out = Vec::new();
    possible_collision_between(0, CollidableShape::Circle, 1, CollidableShape::Circle, &measure, &mut out);
    assert_eq!(out, vec![Collision { reference: 0, other: 1, face: 0 }]);
    let contact = ((bx - ax) / d * ar, (by - ay) / d * ar);
    assert_eq!(contact, (1.0, 0.0));
}

#[test]
fn circles_collide_in_either_order() {
    let near = distance(0.0, 0.0, 1.5, 0.0);
    let far = distance(0.0, 0.0, 3.0, 0.0);
    for (d, collide) in [(near, true), (far, false)] {
        let measure = Measure::Circles { distance: key(d), reach: key(2.0) };
        let mut ab = Vec::new();
        let mut ba = Vec::new();
        possible_collision_between(0, CollidableShape::Circle, 1, CollidableShape::Circle, &measure, &mut ab);
        possible_collision_between(1, CollidableShape::Circle, 0, CollidableShape::Circle, &measure, &mut ba);
        assert_eq!(ab.len(), ba.len());
        assert_eq!(ab.is_empty(), !collide);
        if collide {
            assert_eq!(ab[0], Collision { reference: 0, other: 1, face: 0 });
            assert_eq!(ba[0], Collision { reference: 1, other: 0, face: 0 });
        }
    }
}

#[test]
fn distant_circles_do_not_collide() {
    let d = distance(0.0, 0.0, 3.0, 0.0);
    let measure = Measure::Circles { distance: key(d), reach: key(1.0 + 1.0) };
    let mut out = Vec::new();
    possible_collision_between(0, CollidableShape::Circle, 1, CollidableShape::Circle, &measure, &mut out);
    assert!(out.is_empty());
}

#[test]
fn touching_circles_do_not_collide() {
    let measure = Measure::Circles { distance: key(2.0), reach: key(2.0) };
    let mut out = Vec::new();
    possible_collision_between(0, CollidableShape::Circle, 1, CollidableShape::Circle, &measure, &mut out);
    assert!(out.is_empty());
}

#[test]
fn circle_inside_square_collides() {
    let vx = [0.0f32, 2.0, 2.0, 0.0];
    let vy = [0.0f32, 0.0, 2.0, 2.0];
    let (cx, cy, r) = (1.0f32, 1.0f32, 0.4f32);
    let mut distances = Vec::new();
    for i in 0..4 {
        let j = (i + 1) % 4;
        distances.push(key(segment_distance(vx[i], vy[i], vx[j], vy[j], cx, cy)));
    }
    let (d, face, found) = dist_poly_circ__face__support(&distances, key(f32::MAX));
    assert!(found);
    assert_eq!(d, key(1.0));
    assert_eq!(face, 0);
    assert!(d > key(r));
    let inside = contains(&vx, &vy, cx, cy);
    assert!(inside);
    let measure = Measure::PolygonCircle { distance: d, radius: key(r), face, inside };
    let mut out = Vec::new();
    possible_collision_between(7, CollidableShape::Polygon, 8, CollidableShape::Circle, &measure, &mut out);
    assert_eq!(out, vec![Collision { reference: 7, other: 8, face: 0 }]);
    let mut mirrored = Vec::new();
    possible_collision_between(8, CollidableShape::Circle, 7, CollidableShape::Polygon, &measure, &mut mirrored);
    assert_eq!(mirrored, out);
}

#[test]
fn circle_far_from_square_does_not_collide() {
    let measure = Measure::PolygonCircle { distance: key(3.0), radius: key(0.5), face: 1, inside: false };
    let mut out = Vec::new();
    possible_collision_between(7, CollidableShape::Polygon, 8, CollidableShape::Circle, &measure, &mut out);
    assert!(out.is_empty());
}

#[test]
fn circle_reaching_an_edge_collides() {
    let measure = Measure::PolygonCircle { distance: key(0.5), radius: key(0.5), face: 2, inside: false };
    let mut out = Vec::new();
    possible_collision_between(3, CollidableShape::Circle, 4, CollidableShape::Polygon, &measure, &mut out);
    assert_eq!(out, vec![Collision { reference: 4, other: 3, face: 2 }]);
}

#[test]
fn polygons_report_the_shallower_axis() {
    let measure = Measure::Polygons { depth_a: key(-0.25), face_a: 1, depth_b: key(-0.75), face_b: 3 };
    let mut out = Vec::new();
    possible_collision_between(1, CollidableShape::Polygon, 2, CollidableShape::Polygon, &measure, &mut out);
    assert_eq!(out, vec![Collision { reference: 1, other: 2, face: 1 }]);

    let swapped = Measure::Polygons { depth_a: key(-0.75), face_a: 3, depth_b: key(-0.25), face_b: 1 };
    let mut back = Vec::new();
    possible_collision_between(2, CollidableShape::Polygon, 1, CollidableShape::Polygon, &swapped, &mut back);
    assert_eq!(back, out);
}

#[test]
fn polygons_of_equal_depth_name_the_first() {
    let measure = Measure::Polygons { depth_a: key(-0.5), face_a: 1, depth_b: key(-0.5), face_b: 3 };
    let mut out = Vec::new();
    possible_collision_between(1, CollidableShape::Polygon, 2, CollidableShape::Polygon, &measure, &mut out);
    assert_eq!(out, vec![Collision { reference: 1, other: 2, face: 1 }]);
}

#[test]
fn separated_polygons_do_not_collide() {
    let mut out = vec![Collision { reference: 9, other: 9, face: 9 }];
    let one = Measure::Polygons { depth_a: key(0.5), face_a: 1, depth_b: key(-0.5), face_b: 3 };
    possible_collision_between(1, CollidableShape::Polygon, 2, CollidableShape::Polygon, &one, &mut out);
    let other = Measure::Polygons { depth_a: key(-0.5), face_a: 1, depth_b: key(0.0), face_b: 3 };
    possible_collision_between(1, CollidableShape::Polygon, 2, CollidableShape::Polygon, &other, &mut out);
    assert_eq!(out, vec![Collision { reference: 9, other: 9, face: 9 }]);
}

#[test]
fn measure_of_another_pair_shows_nothing() {
    let measure = Measure::Circles { distance: key(0.0), reach: key(2.0) };
    let mut out = Vec::new();
    possible_collision_between(1, CollidableShape::Polygon, 2, CollidableShape::Polygon, &measure, &mut out);
    assert!(out.is_empty());
}

#[test]
fn crossing_parity() {
    let heights = vec![0, 0, 2, 2];
    assert!(poly_contains_pnt(&heights, 1, &vec![false, true, true, true]));
    assert!(poly_contains_pnt(&heights, 1, &vec![true, false, false, false]));
    assert!(!poly_contains_pnt(&heights, 1, &vec![true, true, true, true]));
    assert!(!poly_contains_pnt(&heights, 1, &vec![false, true, false, true]));
    assert!(!poly_contains_pnt(&heights, 3, &vec![true, false, true, false]));
    assert!(!poly_contains_pnt(&heights, -1, &vec![true, false, true, false]));
    assert!(!poly_contains_pnt(&vec![], 1, &vec![]));
}

#[test]
fn an_edge_is_crossed_between_its_ends() {
    let heights = vec![0, 4, 2];
    assert!(poly_contains_pnt(&heights, 1, &vec![true, false, false]));
    assert!(poly_contains_pnt(&heights, 1, &vec![false, true, false]));
    assert!(!poly_contains_pnt(&heights, 1, &vec![false, false, true]));
    assert!(poly_contains_pnt(&heights, 3, &vec![false, false, true]));
    assert!(!poly_contains_pnt(&heights, 3, &vec![true, false, false]));
    assert!(!poly_contains_pnt(&heights, 4, &vec![true, true, true]));
}

#[test]
fn point_outside_square() {
    let vx = [0.0f32, 2.0, 2.0, 0.0];
    let vy = [0.0f32, 0.0, 2.0, 2.0];
    assert!(!contains(&vx, &vy, 3.0, 1.0));
    assert!(!contains(&vx, &vy, 1.0, 3.0));
    assert!(contains(&vx, &vy, 0.5, 1.5));
    assert!(contains(&vx, &vy, 1.0, 1.0));
}

#[test]
fn every_corner_must_lie_inside() {
    let vx = [0.0f32, 4.0, 4.0, 0.0];
    let vy = [0.0f32, 0.0, 4.0, 4.0];
    let holds = |px: &[f32], py: &[f32]| {
        let mut left = Vec::new();
        for k in 0..px.len() {
            left.push(left_of_edges(&vx, &vy, px[k], py[k]));
        }
        poly_contains_poly(&keys(&vy), &keys(py), &left)
    };
    assert!(holds(&[1.0, 3.0, 2.0], &[1.0, 1.0, 3.0]));
    assert!(!holds(&[1.0, 5.0, 2.0], &[1.0, 1.0, 3.0]));
    assert!(!holds(&[1.0, 3.0, 2.0], &[1.0, 1.0, 5.0]));
    assert!(!holds(&[-1.0, 3.0, 2.0], &[1.0, 1.0, 3.0]));
    assert!(holds(&[], &[]));
}

#[test]
fn segment_regions() {
    assert_eq!(dist_line_pnt__closest_pnt(0, 5, key(1.0)), SegmentRegion::Degenerate);
    assert_eq!(dist_line_pnt__closest_pnt(key(4.0), key(-0.5), key(1.0)), SegmentRegion::BeforeStart);
    assert_eq!(dist_line_pnt__closest_pnt(key(4.0), key(1.5), key(1.0)), SegmentRegion::BeyondEnd);
    assert_eq!(dist_line_pnt__closest_pnt(key(4.0), key(0.0), key(1.0)), SegmentRegion::Within);
    assert_eq!(dist_line_pnt__closest_pnt(key(4.0), key(1.0), key(1.0)), SegmentRegion::Within);
    assert_eq!(segment_distance(0.0, 0.0, 2.0, 0.0, 1.0, 1.0), 1.0);
    assert_eq!(segment_distance(0.0, 0.0, 2.0, 0.0, -3.0, 4.0), 5.0);
    assert_eq!(segment_distance(1.0, 1.0, 1.0, 1.0, 4.0, 5.0), 5.0);
}

#[test]
fn nearest_edge_keeps_the_first_of_equals() {
    assert_eq!(dist_poly_circ__face__support(&vec![5, 3, 3, 4], 100), (3, 1, true));
    assert_eq!(dist_poly_circ__face__support(&vec![5, 3, 2, 2], 100), (2, 2, true));
    assert_eq!(dist_poly_circ__face__support(&vec![5, 3, 3, 4], 3), (3, 0, false));
    assert_eq!(dist_poly_circ__face__support(&vec![], 7), (7, 0, false));
    assert_eq!(dist_poly_circ(&vec![5, 3, 3, 4], 100), 3);
    assert_eq!(dist_poly_circ(&vec![5, 3, 3, 4], 1), 1);
}

#[test]
fn deepest_axis_keeps_the_first_of_equals() {
    assert_eq!(penetration__face__support(&vec![-5, -3, -3, -4], -100), (-3, 1, true));
    assert_eq!(penetration__face__support(&vec![-5, 2, 7, 7], -100), (7, 2, true));
    assert_eq!(penetration__face__support(&vec![-5, -3], -3), (-3, 0, false));
}

#[test]
fn support_is_the_first_furthest_corner() {
    assert_eq!(support_pnt(&vec![1, 4, 4, 2], i64::MIN), Some(1));
    assert_eq!(support_pnt(&vec![9, 4, 4, 2], i64::MIN), Some(0));
    assert_eq!(support_pnt(&vec![1, 2, 3], 3), None);
    assert_eq!(support_pnt(&vec![], 0), None);
}
