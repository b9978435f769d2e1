use usls::fixed::{isqrt, scale_div};
use usls::hull::{convex_hull, sorted_unique};
use usls::point::{cross_product, distance_squared};
use usls::{Point, Polygon, ScaleInfo};

fn pts(v: &[(i64, i64)]) -> Vec<Point> {
    v.iter().map(|&(x, y)| Point::new(x, y)).collect()
}

fn poly(v: &[(i64, i64)]) -> Polygon {
    Polygon::new().with_points(pts(v)).unwrap()
}

fn xy(p: &Polygon) -> Vec<(i64, i64)> {
    p.points().iter().map(|p| (p.x, p.y)).collect()
}

#[test]
fn integer_square_roots() {
    assert_eq!(isqrt(0), 0);
    assert_eq!(isqrt(1), 1);
    assert_eq!(isqrt(15), 3);
    assert_eq!(isqrt(16), 4);
    assert_eq!(isqrt(17), 4);
    assert_eq!(isqrt(8_796_093_022_208), 2_965_820);
    assert_eq!(isqrt(u64::MAX), 4_294_967_295);
}

#[test]
fn scaling_rounds_toward_zero() {
    assert_eq!(scale_div(7, 3, 2), 10);
    assert_eq!(scale_div(-7, 3, 2), -10);
    assert_eq!(scale_div(0, 3, 2), 0);
    assert_eq!(scale_div(i64::MIN, u64::MAX, 1), -(1i128 << 63) * (u64::MAX as i128));
}

#[test]
fn cross_product_sign_gives_the_side() {
    let o = Point::new(0, 0);
    let a = Point::new(10, 0);
    assert_eq!(cross_product(&o, &a, &Point::new(5, 5)), 50);
    assert_eq!(cross_product(&o, &a, &Point::new(5, 0)), 0);
    assert_eq!(cross_product(&a, &o, &Point::new(5, 5)), -50);
    assert_eq!(distance_squared(&o, &Point::new(3, 4)), 25);
}

#[test]
fn pixel_corner_is_sixty_four_steps() {
    assert_eq!(Point::from_pixel(3, 5), Point::new(192, 320));
    assert!(Point::new(0, 2_097_152).is_in_range());
    assert!(!Point::new(-1, 0).is_in_range());
    assert!(!Point::new(0, 2_097_153).is_in_range());
}

#[test]
fn square_area_perimeter_and_box() {
    let p = poly(&[(0, 0), (640, 0), (640, 640), (0, 640)]);
    assert_eq!(p.signed_area2(), 819_200);
    assert_eq!(p.area2(), 819_200);
    assert_eq!(p.perimeter(), 2_560);
    let b = p.bbox().unwrap();
    assert_eq!((b.xmin(), b.ymin(), b.width(), b.height()), (0, 0, 640, 640));
    assert_eq!((b.xmax(), b.ymax()), (640, 640));
    assert_eq!(b.confidence(), 0);
    assert_eq!(b.id(), 0);
    assert_eq!(p.count(), 4);
}

#[test]
fn clockwise_square_has_negative_signed_area() {
    let p = poly(&[(0, 0), (0, 640), (640, 640), (640, 0)]);
    assert_eq!(p.signed_area2(), -819_200);
    assert_eq!(p.area2(), 819_200);
}

#[test]
fn perimeter_rounds_each_edge_down() {
    let p = poly(&[(0, 0), (640, 0), (0, 640)]);
    assert_eq!(p.perimeter(), 640 + 905 + 640);
    assert_eq!(p.area2(), 409_600);
}

#[test]
fn box_carries_the_class_of_the_polygon() {
    let p = poly(&[(10, 20), (30, 5), (25, 40)]).with_id(7);
    assert_eq!(p.id(), Some(7));
    let b = p.bbox().unwrap();
    assert_eq!((b.xmin(), b.ymin(), b.width(), b.height(), b.id()), (10, 5, 20, 35, 7));
}

#[test]
fn empty_polygon_has_no_box() {
    let p = Polygon::default();
    assert!(p.bbox().is_none());
    assert_eq!(p.area2(), 0);
    assert_eq!(p.perimeter(), 0);
    assert_eq!(p.id(), None);
}

#[test]
fn points_outside_the_square_are_refused() {
    assert!(Polygon::new().with_points(pts(&[(0, 0), (-1, 5)])).is_none());
    assert!(Polygon::new().with_points(pts(&[(0, 0), (2_097_153, 5)])).is_none());
    assert!(Polygon::new().with_points(pts(&[(0, 0), (2_097_152, 2_097_152)])).is_some());
    assert!(!Polygon::admits(&pts(&[(0, -3)])));
}

#[test]
fn long_polygons_are_held() {
    let mut many = vec![Point::new(0, 0); 400_000];
    many.extend(vec![Point::new(640, 0); 400_000]);
    many.extend(vec![Point::new(640, 640); 400_000]);
    let p = Polygon::new().with_points(many).unwrap();
    assert_eq!(p.count(), 1_200_000);
    assert_eq!(p.area2(), 409_600);
    assert_eq!(p.perimeter(), 640 + 640 + 905);
}

#[test]
fn verify_rejects_degenerate_polygons() {
    assert!(poly(&[(0, 0), (640, 0)]).verify().is_none());
    assert!(poly(&[(0, 0), (640, 0), (1280, 0)]).verify().is_none());
    assert!(Polygon::new().verify().is_none());
    let kept = poly(&[(0, 0), (640, 0), (0, 640)]).verify().unwrap();
    assert_eq!(xy(&kept), vec![(0, 0), (640, 0), (0, 640)]);
}

#[test]
fn clone_keeps_points_and_class() {
    let p = poly(&[(1, 2), (3, 4), (5, 0)]).with_id(2);
    let q = p.clone();
    assert_eq!(xy(&q), xy(&p));
    assert_eq!(q.id(), Some(2));
}

#[test]
fn unclip_distance_is_area_times_ratios_over_perimeter() {
    let p = poly(&[(0, 0), (640, 0), (640, 640), (0, 640)]);
    let one = ScaleInfo::new(100, 100, 1_000_000).unwrap();
    assert_eq!(p.unclip_distance(&one, 1_500_000), Some(240));
    assert_eq!(p.unclip_distance(&one, 0), Some(0));
    let two = ScaleInfo::new(100, 100, 2_000_000).unwrap();
    assert_eq!(p.unclip_distance(&two, 1_500_000), Some(480));
}

#[test]
fn unclip_distance_uses_the_rounded_scale_ratio() {
    let p = poly(&[(0, 0), (640, 0), (640, 640), (0, 640)]);
    let low = ScaleInfo::new(100, 100, 1_499_999).unwrap();
    assert_eq!(p.unclip_distance(&low, 1_500_000), Some(240));
    let half = ScaleInfo::new(100, 100, 1_500_000).unwrap();
    assert_eq!(p.unclip_distance(&half, 1_500_000), Some(480));
    let small = ScaleInfo::new(100, 100, 499_999).unwrap();
    assert_eq!(p.unclip_distance(&small, 1_500_000), Some(0));
    assert_eq!(low.rounded_ratio(), 1);
    assert_eq!(half.rounded_ratio(), 2);
    assert_eq!(small.rounded_ratio(), 0);
}

#[test]
fn unclip_distance_needs_a_perimeter() {
    let one = ScaleInfo::new(100, 100, 1_000_000).unwrap();
    assert_eq!(poly(&[(5, 5), (5, 5), (5, 5)]).unclip_distance(&one, 1_500_000), None);
    assert_eq!(Polygon::new().unclip_distance(&one, 1_500_000), None);
}

#[test]
fn unclip_moves_each_vertex_outward() {
    let p = poly(&[(640, 640), (1280, 640), (1280, 1280), (640, 1280)]);
    let grown = p.unclip(240, 100, 100);
    assert_eq!(xy(&grown), vec![(471, 471), (1449, 471), (1449, 1449), (471, 1449)]);
}

#[test]
fn unclip_is_outward_for_either_orientation() {
    let p = poly(&[(640, 640), (640, 1280), (1280, 1280), (1280, 640)]);
    let grown = p.unclip(240, 100, 100);
    assert_eq!(xy(&grown), vec![(471, 471), (471, 1449), (1449, 1449), (1449, 471)]);
}

#[test]
fn unclip_limits_vertices_to_the_image() {
    let p = poly(&[(64, 64), (576, 64), (576, 576), (64, 576)]);
    let grown = p.unclip(6_400, 10, 10);
    assert_eq!(xy(&grown), vec![(0, 0), (640, 0), (640, 640), (0, 640)]);
    let same = p.unclip(0, 5, 5);
    assert_eq!(xy(&same), vec![(64, 64), (320, 64), (320, 320), (64, 320)]);
}

#[test]
fn unclip_keeps_a_vertex_between_coinciding_neighbours() {
    let p = poly(&[(100, 100), (200, 200)]);
    let grown = p.unclip(50, 100, 100);
    assert_eq!(xy(&grown), vec![(100, 100), (200, 200)]);
}

#[test]
fn resample_spaces_vertices_evenly() {
    let p = poly(&[(0, 0), (640, 0), (640, 640), (0, 640)]);
    let r = p.resample(8).unwrap();
    assert_eq!(
        xy(&r),
        vec![(0, 0), (320, 0), (640, 0), (640, 320), (640, 640), (320, 640), (0, 640), (0, 320)]
    );
    let r = p.resample(3).unwrap();
    assert_eq!(xy(&r), vec![(0, 0), (640, 213), (214, 640)]);
    assert_eq!(p.resample(50).unwrap().count(), 50);
}

#[test]
fn resample_skips_edges_without_length() {
    let p = poly(&[(0, 0), (0, 0), (640, 0), (640, 0), (640, 640)]);
    let r = p.resample(4).unwrap();
    assert_eq!(r.count(), 4);
    assert_eq!(xy(&r)[0], (0, 0));
}

#[test]
fn resample_rejects_what_it_cannot_sample() {
    let p = poly(&[(0, 0), (640, 0), (640, 640), (0, 640)]);
    assert!(p.resample(0).is_none());
    assert_eq!(p.resample(1_048_577).unwrap().count(), 1_048_577);
    assert!(poly(&[(7, 7), (7, 7)]).resample(50).is_none());
    assert!(Polygon::new().resample(50).is_none());
}

#[test]
fn sorting_orders_and_drops_repeats() {
    let sorted = sorted_unique(&pts(&[(5, 1), (0, 9), (5, 0), (0, 9), (5, 1), (2, 2)]));
    let got: Vec<(i64, i64)> = sorted.iter().map(|p| (p.x, p.y)).collect();
    assert_eq!(got, vec![(0, 9), (2, 2), (5, 0), (5, 1)]);
}

#[test]
fn hull_drops_inner_and_collinear_points() {
    let hull = convex_hull(&pts(&[(0, 0), (640, 0), (320, 0), (640, 640), (320, 320), (0, 640), (640, 0)]));
    let got: Vec<(i64, i64)> = hull.iter().map(|p| (p.x, p.y)).collect();
    assert_eq!(got, vec![(0, 0), (640, 0), (640, 640), (0, 640)]);
}

#[test]
fn hull_of_few_points() {
    assert!(convex_hull(&pts(&[])).is_empty());
    let one = convex_hull(&pts(&[(3, 3), (3, 3)]));
    assert_eq!(one.len(), 1);
    let two: Vec<(i64, i64)> = convex_hull(&pts(&[(9, 9), (3, 3), (6, 6)])).iter().map(|p| (p.x, p.y)).collect();
    assert_eq!(two, vec![(3, 3), (9, 9)]);
}

#[test]
fn hull_of_a_polygon_keeps_its_class() {
    let p = poly(&[(0, 0), (100, 50), (200, 0), (100, 200)]).with_id(4);
    let h = p.convex_hull();
    assert_eq!(h.id(), Some(4));
    assert_eq!(xy(&h), vec![(0, 0), (200, 0), (100, 200)]);
}

#[test]
fn rectangle_around_an_upright_square() {
    let p = poly(&[(0, 0), (640, 0), (640, 640), (0, 640)]);
    let m = p.mbr().unwrap();
    assert_eq!(m.anchor(), Point::new(0, 0));
    assert_eq!(m.direction(), (640, 0));
    assert_eq!(m.extent_along(), (0, 409_600));
    assert_eq!(m.extent_across(), (0, 409_600));
    assert_eq!(m.confidence(), 0);
    assert_eq!(m.id(), 0);
}

#[test]
fn rectangle_around_a_diamond_is_turned() {
    let p = poly(&[(320, 0), (640, 320), (320, 640), (0, 320)]);
    let m = p.mbr().unwrap();
    assert_eq!(m.anchor(), Point::new(320, 0));
    assert_eq!(m.direction(), (320, 320));
    assert_eq!(m.extent_along(), (0, 204_800));
    assert_eq!(m.extent_across(), (0, 204_800));
    let area = (204_800i128 * 204_800) / (320 * 320 + 320 * 320);
    assert_eq!(area, 204_800);
    assert_eq!(p.bbox().unwrap().area(), 409_600);
}

#[test]
fn rectangle_takes_the_edge_of_least_area() {
    let p = poly(&[(0, 0), (1000, 0), (1000, 100), (500, 400), (0, 100)]);
    let m = p.mbr().unwrap();
    assert_eq!(m.anchor(), Point::new(0, 0));
    assert_eq!(m.direction(), (1000, 0));
    let m = m.with_confidence(2_000_000).with_id(3);
    assert_eq!(m.confidence(), 1_000_000);
    assert_eq!(m.id(), 3);
}

#[test]
fn rectangle_needs_three_vertices_and_edges_with_length() {
    assert!(poly(&[(0, 0), (640, 0)]).mbr().is_none());
    assert!(poly(&[(0, 0), (640, 0), (640, 0), (0, 640)]).mbr().is_none());
    assert!(!poly(&[(0, 0), (640, 0), (0, 640), (0, 0)]).has_frames());
    assert!(poly(&[(0, 0), (640, 0), (0, 640)]).has_frames());
}

fn scattered(seed: u64, count: usize, side: i64) -> Vec<Point> {
    let mut state = seed;
    let mut next = move || {
        state = state.wrapping_mul(6_364_136_223_846_793_005).wrapping_add(1_442_695_040_888_963_407);
        ((state >> 33) as i64) % (side + 1)
    };
    (0..count).map(|_| Point::new(next(), next())).collect()
}

#[test]
fn hull_encloses_every_point_and_turns_left() {
    for seed in 0..40u64 {
        let count = 3 + (seed as usize * 7) % 60;
        let side = if seed % 4 == 0 { 6 } else { 2_097_152 };
        let points = scattered(seed, count, side);
        let hull = convex_hull(&points);
        assert!(!hull.is_empty());
        assert!(hull.len() <= points.len());
        let n = hull.len();
        for (i, v) in hull.iter().enumerate() {
            assert!(points.contains(v));
            assert!(!hull[i + 1..].contains(v));
            let next = &hull[(i + 1) % n];
            for q in points.iter() {
                assert!(cross_product(v, next, q) >= 0);
                assert!((hull[0].x, hull[0].y) <= (q.x, q.y));
            }
            if n >= 3 {
                assert!(cross_product(v, next, &hull[(i + 2) % n]) > 0);
            }
        }
    }
}

#[test]
fn hull_of_collinear_points_is_their_two_ends() {
    let line: Vec<Point> = (0..20).map(|i| Point::new(100 + 3 * i, 50 + 7 * i)).rev().collect();
    let hull: Vec<(i64, i64)> = convex_hull(&line).iter().map(|p| (p.x, p.y)).collect();
    assert_eq!(hull, vec![(100, 50), (157, 183)]);
    let upright: Vec<Point> = (0..5).map(|i| Point::new(9, 10 * i)).collect();
    let hull: Vec<(i64, i64)> = convex_hull(&upright).iter().map(|p| (p.x, p.y)).collect();
    assert_eq!(hull, vec![(9, 0), (9, 40)]);
}

#[test]
fn rectangle_holds_every_vertex() {
    for seed in 100..120u64 {
        let hull = convex_hull(&scattered(seed, 30, 100_000));
        let polygon = Polygon::new().with_points(hull).unwrap();
        let m = match polygon.mbr() {
            Some(m) => m,
            None => {
                assert!(polygon.count() < 3);
                continue;
            }
        };
        let (a, (dx, dy)) = (m.anchor(), m.direction());
        let ((u0, u1), (v0, v1)) = (m.extent_along(), m.extent_across());
        let mut hits = [false; 4];
        for q in polygon.points().iter() {
            let u = dx * (q.x - a.x) + dy * (q.y - a.y);
            let v = dx * (q.y - a.y) - dy * (q.x - a.x);
            assert!(u0 <= u && u <= u1 && v0 <= v && v <= v1);
            hits[0] |= u == u0;
            hits[1] |= u == u1;
            hits[2] |= v == v0;
            hits[3] |= v == v1;
        }
        assert_eq!(hits, [true; 4]);
        let area = ((u1 - u0) as i128 * (v1 - v0) as i128) / (dx as i128 * dx as i128 + dy as i128 * dy as i128);
        assert!(area <= polygon.bbox().unwrap().area() as i128);
    }
}

#[test]
fn resampled_vertices_lie_on_the_boundary() {
    let p = poly(&[(0, 0), (1000, 0), (1000, 300), (0, 300)]);
    let r = p.resample(13).unwrap();
    assert_eq!(r.count(), 13);
    for q in r.points().iter() {
        assert!(q.x == 0 || q.x == 1000 || q.y == 0 || q.y == 300);
        assert!(0 <= q.x && q.x <= 1000 && 0 <= q.y && q.y <= 300);
    }
    assert_eq!(xy(&r)[0], (0, 0));
    assert_eq!(xy(&r)[1], (200, 0));
    assert_eq!(xy(&r)[6], (1000, 200));
    assert_eq!(xy(&r)[7], (900, 300));
}

#[test]
fn convex_polygon_encloses_its_inside_and_boundary() {
    let p = poly(&[(0, 0), (640, 0), (640, 640), (0, 640)]);
    assert!(p.encloses(&Point::new(320, 320)));
    assert!(p.encloses(&Point::new(0, 0)));
    assert!(p.encloses(&Point::new(640, 100)));
    assert!(!p.encloses(&Point::new(641, 100)));
    assert!(!p.encloses(&Point::new(-1, 100)));
    assert!(!p.encloses(&Point::new(100, 2_097_153)));
    let t = poly(&[(0, 0), (640, 0), (0, 640)]);
    assert!(t.encloses(&Point::new(320, 320)));
    assert!(!t.encloses(&Point::new(321, 320)));
    let b = p.bbox().unwrap();
    assert!(b.contains(&Point::new(640, 640)));
    assert!(b.contains(&Point::new(0, 0)));
    assert!(!b.contains(&Point::new(641, 0)));
    assert!(!b.contains(&Point::new(0, -1)));
}
