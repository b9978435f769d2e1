use usls::contours::{extract_contours, BorderType, Contour};

fn mask(width: usize, height: usize, on: &[(usize, usize)]) -> Vec<u8> {
    let mut m = vec![0u8; width * height];
    for &(x, y) in on {
        m[y * width + x] = 255;
    }
    m
}

#[test]
fn single_pixel_has_one_outer_border() {
    let contours = extract_contours(mask(3, 3, &[(1, 1)]), 3, 3, 1);
    assert_eq!(contours.len(), 1);
    assert_eq!(contours[0].points, vec![(1, 1)]);
    assert_eq!(contours[0].border_type, BorderType::Outer);
    assert_eq!(contours[0].parent, None);
}

#[test]
fn block_border_runs_around_the_block() {
    let on = [(1, 1), (2, 1), (3, 1), (1, 2), (2, 2), (3, 2), (1, 3), (2, 3), (3, 3)];
    let contours = extract_contours(mask(5, 5, &on), 5, 5, 1);
    assert_eq!(contours.len(), 1);
    assert_eq!(
        contours[0].points,
        vec![(1, 1), (1, 2), (1, 3), (2, 3), (3, 3), (3, 2), (3, 1), (2, 1)]
    );
    assert_eq!(contours[0].border_type, BorderType::Outer);
}

#[test]
fn fully_foreground_mask_has_one_outer_border() {
    let contours = extract_contours(vec![255u8; 16], 4, 4, 1);
    assert_eq!(contours.len(), 1);
    assert_eq!(contours[0].border_type, BorderType::Outer);
    assert_eq!(contours[0].parent, None);
    assert_eq!(contours[0].points.len(), 12);
    assert_eq!(contours[0].points[0], (0, 0));
    for &(x, y) in &contours[0].points {
        assert!(x == 0 || x == 3 || y == 0 || y == 3);
        assert!((0..4).contains(&x) && (0..4).contains(&y));
    }
}

#[test]
fn region_on_the_left_side_is_an_outer_border() {
    let contours = extract_contours(mask(5, 5, &[(0, 1), (1, 1), (0, 2), (1, 2)]), 5, 5, 1);
    assert_eq!(contours.len(), 1);
    assert_eq!(contours[0].border_type, BorderType::Outer);
    assert_eq!(contours[0].points, vec![(0, 1), (0, 2), (1, 2), (1, 1)]);
}

#[test]
fn ring_has_an_outer_border_and_a_hole() {
    let mut on = Vec::new();
    for y in 1..6 {
        for x in 1..6 {
            if !(x == 3 && y == 3) {
                on.push((x, y));
            }
        }
    }
    let contours = extract_contours(mask(7, 7, &on), 7, 7, 1);
    assert_eq!(contours.len(), 2);
    assert_eq!(contours[0].border_type, BorderType::Outer);
    assert_eq!(contours[1].border_type, BorderType::Hole);
    assert_eq!(contours[1].parent, Some(0));
    assert!(contours[1].points.len() > 2);
    assert!(!contours[1].is_degenerate_hole());
}

#[test]
fn background_mask_has_no_border() {
    assert!(extract_contours(vec![0u8; 12], 4, 3, 1).is_empty());
}

#[test]
fn threshold_is_strict() {
    let mut m = vec![0u8; 9];
    m[4] = 1;
    assert!(extract_contours(m.clone(), 3, 3, 1).is_empty());
    assert_eq!(extract_contours(m, 3, 3, 0).len(), 1);
}

#[test]
fn mask_of_wrong_length_has_no_border() {
    assert!(extract_contours(vec![255u8; 8], 3, 3, 1).is_empty());
    assert!(extract_contours(vec![255u8; 10], 3, 3, 1).is_empty());
    assert!(extract_contours(vec![], 0, 0, 1).is_empty());
}

#[test]
fn short_hole_is_degenerate() {
    let hole = Contour::new(vec![(1, 1), (2, 1)], BorderType::Hole, Some(0));
    assert!(hole.is_degenerate_hole());
    let outer = Contour::new(vec![(1, 1), (2, 1)], BorderType::Outer, None);
    assert!(!outer.is_degenerate_hole());
    let long_hole = Contour::new(vec![(1, 1), (2, 1), (2, 2)], BorderType::Hole, Some(0));
    assert!(!long_hole.is_degenerate_hole());
}
