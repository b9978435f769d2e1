use usls::anchors::{argmax, decode_anchors, propose};
use usls::nms::{is_suppressed, nms, sort_by_confidence};
use usls::{Anchor, Bbox, DynConf, ScaleInfo};

fn bx(x: i64, y: i64, w: i64, h: i64, confidence: u32, id: usize) -> Bbox {
    Bbox::new(x, y, w, h, confidence, id).unwrap()
}

fn flat(boxes: &[Bbox]) -> Vec<(i64, i64, i64, i64, u32, usize)> {
    boxes.iter().map(|b| (b.xmin(), b.ymin(), b.width(), b.height(), b.confidence(), b.id())).collect()
}

#[test]
fn box_must_lie_in_the_accepted_square() {
    assert!(Bbox::new(0, 0, 10, 10, 1_000_000, 0).is_some());
    assert!(Bbox::new(0, 0, 0, 0, 0, 0).is_some());
    assert!(Bbox::new(-1, 0, 10, 10, 0, 0).is_none());
    assert!(Bbox::new(0, 0, -1, 10, 0, 0).is_none());
    assert!(Bbox::new(0, 0, 10, 10, 1_000_001, 0).is_none());
    assert!(Bbox::new(2_097_152, 0, 1, 1, 0, 0).is_none());
    assert!(Bbox::new(2_097_151, 2_097_151, 1, 1, 0, 0).is_some());
    assert!(Bbox::new(i64::MAX, 0, i64::MAX, 1, 0, 0).is_none());
}

#[test]
fn box_builders_change_one_field() {
    let b = bx(1, 2, 3, 4, 5, 6).with_confidence(700_000).with_id(9);
    assert_eq!(flat(&[b]), vec![(1, 2, 3, 4, 700_000, 9)]);
    assert_eq!(b.with_confidence(2_000_000).confidence(), 1_000_000);
    assert_eq!(b.area(), 12);
}

#[test]
fn overlap_of_two_boxes() {
    let a = bx(0, 0, 640, 640, 0, 0);
    let b = bx(64, 0, 640, 640, 0, 0);
    assert_eq!(a.intersect(&b), 368_640);
    assert_eq!(b.intersect(&a), 368_640);
    assert!(a.iou_above(&b, 818_181));
    assert!(!a.iou_above(&b, 818_182));
    let far = bx(1000, 1000, 10, 10, 0, 0);
    assert_eq!(a.intersect(&far), 0);
    assert!(!a.iou_above(&far, 0));
    let touching = bx(640, 0, 10, 10, 0, 0);
    assert_eq!(a.intersect(&touching), 0);
}

#[test]
fn boxes_without_area_never_overlap() {
    let a = bx(5, 5, 0, 0, 0, 0);
    assert!(!a.iou_above(&a, 0));
}

#[test]
fn identical_boxes_overlap_fully() {
    let a = bx(5, 5, 10, 10, 0, 0);
    assert!(a.iou_above(&a, 999_999));
    assert!(!a.iou_above(&a, 1_000_000));
}

#[test]
fn overlapping_anchor_of_lower_confidence_is_suppressed() {
    let strong = bx(0, 0, 900, 100, 900_000, 0);
    let weak = bx(100, 0, 900, 100, 700_000, 0);
    assert_eq!(strong.intersect(&weak), 80_000);
    assert!(strong.iou_above(&weak, 799_999));
    assert!(!strong.iou_above(&weak, 800_000));
    assert_eq!(flat(&nms(&vec![strong, weak], 500_000)), flat(&[strong]));
    assert_eq!(flat(&nms(&vec![weak, strong], 500_000)), flat(&[strong]));
    assert_eq!(flat(&nms(&vec![weak, strong], 800_000)), flat(&[strong, weak]));
}

#[test]
fn suppression_is_per_class() {
    let a = bx(0, 0, 900, 100, 900_000, 0);
    let b = bx(100, 0, 900, 100, 700_000, 1);
    assert_eq!(flat(&nms(&vec![a, b], 500_000)), flat(&[a, b]));
    assert!(!is_suppressed(&vec![a], &b, 500_000));
    assert!(is_suppressed(&vec![a], &b.with_id(0), 500_000));
}

#[test]
fn equal_confidences_keep_the_given_order() {
    let a = bx(0, 0, 10, 10, 500_000, 0);
    let b = bx(100, 0, 10, 10, 500_000, 1);
    let c = bx(200, 0, 10, 10, 900_000, 2);
    let d = bx(300, 0, 10, 10, 500_000, 3);
    assert_eq!(flat(&sort_by_confidence(&vec![a, b, c, d])), flat(&[c, a, b, d]));
    assert_eq!(flat(&sort_by_confidence(&vec![d, b, a])), flat(&[d, b, a]));
    let first = bx(0, 0, 900, 100, 500_000, 0);
    let second = bx(100, 0, 900, 100, 500_000, 0);
    assert_eq!(flat(&nms(&vec![first, second], 500_000)), flat(&[first]));
    assert_eq!(flat(&nms(&vec![second, first], 500_000)), flat(&[second]));
}

#[test]
fn suppressed_box_does_not_suppress() {
    let a = bx(0, 0, 900, 100, 900_000, 0);
    let b = bx(300, 0, 900, 100, 800_000, 0);
    let c = bx(600, 0, 900, 100, 700_000, 0);
    assert_eq!(flat(&nms(&vec![a, b, c], 400_000)), flat(&[a, c]));
}

#[test]
fn suppressing_again_changes_nothing() {
    let boxes = vec![
        bx(0, 0, 900, 100, 400_000, 0),
        bx(100, 0, 900, 100, 700_000, 0),
        bx(50, 10, 900, 100, 700_000, 1),
        bx(2000, 0, 300, 300, 950_000, 0),
        bx(2010, 0, 300, 300, 100_000, 0),
        bx(60, 0, 900, 100, 650_000, 0),
    ];
    let once = nms(&boxes, 450_000);
    let twice = nms(&once, 450_000);
    assert_eq!(flat(&once), flat(&twice));
    assert_eq!(once.len(), 3);
    for i in 0..once.len() {
        for j in (i + 1)..once.len() {
            assert!(once[i].confidence() >= once[j].confidence());
            assert!(once[i].id() != once[j].id() || !once[i].iou_above(&once[j], 450_000));
        }
    }
    assert!(nms(&vec![], 450_000).is_empty());
}

#[test]
fn confidence_table_pads_with_its_last_entry() {
    let t = DynConf::new(&vec![300_000], 3).unwrap();
    assert_eq!((t.len(), t.get(0), t.get(2), t.get(3)), (3, Some(300_000), Some(300_000), None));
    let t = DynConf::new(&vec![100_000, 200_000, 300_000], 2).unwrap();
    assert_eq!((t.len(), t.get(0), t.get(1), t.get(2)), (2, Some(100_000), Some(200_000), None));
    let t = DynConf::new(&vec![100_000, 200_000], 4).unwrap();
    assert_eq!((t.get(1), t.get(2), t.get(3)), (Some(200_000), Some(200_000), Some(200_000)));
    let c = t.clone();
    assert_eq!((c.len(), c.get(3)), (4, Some(200_000)));
}

#[test]
fn confidence_table_rejects_bad_input() {
    assert!(DynConf::new(&vec![], 1).is_none());
    assert_eq!(DynConf::new(&vec![], 0).unwrap().len(), 0);
    assert!(DynConf::new(&vec![1_000_001], 1).is_none());
    assert!(DynConf::new(&vec![0, 1_000_001], 1).is_none());
    assert!(DynConf::new(&vec![1_000_000], 1).is_some());
}

#[test]
fn scale_descriptor_rejects_bad_input() {
    assert!(ScaleInfo::new(0, 10, 1_000_000).is_none());
    assert!(ScaleInfo::new(10, 0, 1_000_000).is_none());
    assert!(ScaleInfo::new(10, 10, 0).is_none());
    assert!(ScaleInfo::new(32_769, 10, 1_000_000).is_none());
    assert!(ScaleInfo::new(10, 10, 32_768_000_001).is_none());
    let s = ScaleInfo::new(480, 640, 32_768_000_000).unwrap();
    assert_eq!((s.height(), s.width(), s.ratio_ppm(), s.rounded_ratio()), (480, 640, 32_768_000_000, 32_768));
}

#[test]
fn inversion_divides_by_the_ratio() {
    let two = ScaleInfo::new(480, 640, 2_000_000).unwrap();
    assert_eq!(two.invert(6_400), 3_200);
    assert_eq!(two.invert(-6_400), -3_200);
    let three = ScaleInfo::new(480, 640, 3_000_000).unwrap();
    assert_eq!(three.invert(100), 33);
    assert_eq!(three.invert(-100), -33);
    assert_eq!(three.invert(0), 0);
    assert_eq!(three.invert_clamped(-100, 50), 0);
    assert_eq!(three.invert_clamped(1_000, 50), 50);
    assert_eq!(three.invert_clamped(100, 50), 33);
    let tiny = ScaleInfo::new(480, 640, 1).unwrap();
    assert_eq!(tiny.invert(i64::MAX), (i64::MAX as i128) * 1_000_000);
}

#[test]
fn inverted_box_lands_within_a_pixel() {
    let scale = ScaleInfo::new(480, 640, 750_000).unwrap();
    let px = |v: f64| (v * 64.0) as i64;
    let model = [px(100.0), px(50.0), px(300.0), px(130.0)];
    let expected = [133.3333, 66.6667, 400.0, 173.3333];
    for (m, e) in model.iter().zip(expected.iter()) {
        let got = scale.invert(*m) as f64 / 64.0;
        assert!((got - e).abs() < 1.0, "{} against {}", got, e);
    }
    let anchor = Anchor { cx: px(200.0), cy: px(90.0), w: px(200.0), h: px(80.0), scores: vec![900_000] };
    let confs = DynConf::new(&vec![500_000], 1).unwrap();
    let b = propose(&anchor, &confs, &scale).unwrap();
    assert!((b.xmin() as f64 / 64.0 - 133.3333).abs() < 1.0);
    assert!((b.ymin() as f64 / 64.0 - 66.6667).abs() < 1.0);
    assert!((b.xmax() as f64 / 64.0 - 400.0).abs() < 1.0);
    assert!((b.ymax() as f64 / 64.0 - 173.3333).abs() < 1.0);
}

#[test]
fn best_class_is_the_first_of_the_highest() {
    assert_eq!(argmax(&vec![]), None);
    assert_eq!(argmax(&vec![5]), Some(0));
    assert_eq!(argmax(&vec![1, 9, 3, 9]), Some(1));
    assert_eq!(argmax(&vec![0, 0]), Some(0));
}

#[test]
fn anchor_becomes_a_box_in_the_source_image() {
    let confs = DynConf::new(&vec![500_000], 2).unwrap();
    let anchor = Anchor { cx: 12_800, cy: 6_400, w: 6_400, h: 3_200, scores: vec![100_000, 900_000] };
    let one = ScaleInfo::new(480, 640, 1_000_000).unwrap();
    assert_eq!(flat(&[propose(&anchor, &confs, &one).unwrap()]), vec![(9_600, 4_800, 6_400, 3_200, 900_000, 1)]);
    let two = ScaleInfo::new(480, 640, 2_000_000).unwrap();
    assert_eq!(flat(&[propose(&anchor, &confs, &two).unwrap()]), vec![(4_800, 2_400, 3_200, 1_600, 900_000, 1)]);
}

#[test]
fn anchor_box_is_limited_to_the_image_last() {
    let confs = DynConf::new(&vec![500_000], 1).unwrap();
    let one = ScaleInfo::new(100, 100, 1_000_000).unwrap();
    let anchor = Anchor { cx: 0, cy: 6_400, w: 6_400, h: 6_400, scores: vec![2_000_000] };
    assert_eq!(flat(&[propose(&anchor, &confs, &one).unwrap()]), vec![(0, 3_200, 3_200, 3_200, 1_000_000, 0)]);
    let outside = Anchor { cx: -64_000, cy: 0, w: 640, h: 640, scores: vec![900_000] };
    assert_eq!(flat(&[propose(&outside, &confs, &one).unwrap()]), vec![(0, 0, 0, 320, 900_000, 0)]);
}

#[test]
fn anchor_is_held_against_the_threshold_of_its_best_class() {
    let one = ScaleInfo::new(100, 100, 1_000_000).unwrap();
    let confs = DynConf::new(&vec![700_000, 300_000], 2).unwrap();
    let a = Anchor { cx: 640, cy: 640, w: 640, h: 640, scores: vec![600_000, 400_000] };
    assert!(propose(&a, &confs, &one).is_none());
    let b = Anchor { cx: 640, cy: 640, w: 640, h: 640, scores: vec![300_000, 400_000] };
    assert_eq!(propose(&b, &confs, &one).unwrap().id(), 1);
    let exact = Anchor { cx: 640, cy: 640, w: 640, h: 640, scores: vec![700_000, 0] };
    assert!(propose(&exact, &confs, &one).is_some());
    let narrow = DynConf::new(&vec![100_000], 1).unwrap();
    assert!(propose(&b, &narrow, &one).is_none());
}

#[test]
fn malformed_anchor_is_dropped() {
    let one = ScaleInfo::new(100, 100, 1_000_000).unwrap();
    let confs = DynConf::new(&vec![100_000], 1).unwrap();
    let none = Anchor { cx: 640, cy: 640, w: 640, h: 640, scores: vec![] };
    assert!(propose(&none, &confs, &one).is_none());
    let negative = Anchor { cx: 640, cy: 640, w: -1, h: 640, scores: vec![900_000] };
    assert!(propose(&negative, &confs, &one).is_none());
    let huge = Anchor { cx: 1_099_511_627_777, cy: 640, w: 1, h: 640, scores: vec![900_000] };
    assert!(propose(&huge, &confs, &one).is_none());
    let edge = Anchor { cx: 1_099_511_627_776, cy: 640, w: 1, h: 640, scores: vec![900_000] };
    assert!(propose(&edge, &confs, &one).is_some());
}

#[test]
fn anchors_are_filtered_inverted_and_suppressed() {
    let scale = ScaleInfo::new(100, 100, 1_000_000).unwrap();
    let confs = DynConf::new(&vec![500_000], 1).unwrap();
    let anchors = vec![
        Anchor { cx: 1_100, cy: 100, w: 1_800, h: 200, scores: vec![700_000] },
        Anchor { cx: 900, cy: 100, w: 1_800, h: 200, scores: vec![900_000] },
        Anchor { cx: 4_000, cy: 4_000, w: 400, h: 400, scores: vec![400_000] },
        Anchor { cx: 5_000, cy: 5_000, w: 400, h: 400, scores: vec![600_000] },
    ];
    let out = decode_anchors(&anchors, &confs, &scale, 500_000);
    assert_eq!(flat(&out), vec![(0, 0, 1_800, 200, 900_000, 0), (4_800, 4_800, 400, 400, 600_000, 0)]);
    assert!(decode_anchors(&vec![], &confs, &scale, 500_000).is_empty());
}

#[test]
fn offset_is_removed_before_the_ratio() {
    let confs = DynConf::new(&vec![500_000], 1).unwrap();
    let anchor = Anchor { cx: 12_800, cy: 6_400, w: 6_400, h: 3_200, scores: vec![900_000] };
    let plain = ScaleInfo::new(480, 640, 2_000_000).unwrap();
    assert_eq!(plain.offset(), (0, 0));
    let padded = plain.with_offset(1_600, 800).unwrap();
    assert_eq!(padded.offset(), (1_600, 800));
    assert_eq!((padded.height(), padded.width(), padded.ratio_ppm()), (480, 640, 2_000_000));
    assert_eq!(flat(&[propose(&anchor, &confs, &padded).unwrap()]), vec![(4_000, 2_000, 3_200, 1_600, 900_000, 0)]);
    assert!(plain.with_offset(-1, 0).is_none());
    assert!(plain.with_offset(0, 2_097_153).is_none());
    assert!(plain.with_offset(2_097_152, 2_097_152).is_some());
}

#[test]
fn fitted_ratio_is_the_smaller_of_the_two() {
    let s = ScaleInfo::fit(960, 960, 480, 640).unwrap();
    assert_eq!((s.height(), s.width(), s.ratio_ppm()), (480, 640, 1_500_000));
    let s = ScaleInfo::fit(960, 960, 1_000, 3_000).unwrap();
    assert_eq!(s.ratio_ppm(), 320_000);
    let s = ScaleInfo::fit(32_768, 32_768, 1, 1).unwrap();
    assert_eq!(s.ratio_ppm(), 32_768_000_000);
    let s = ScaleInfo::fit(1, 1, 32_768, 3).unwrap();
    assert_eq!(s.ratio_ppm(), 30);
    assert!(ScaleInfo::fit(0, 960, 480, 640).is_none());
    assert!(ScaleInfo::fit(960, 960, 0, 640).is_none());
    assert!(ScaleInfo::fit(960, 32_769, 480, 640).is_none());
    assert!(ScaleInfo::fit(960, 960, 480, 32_769).is_none());
}

