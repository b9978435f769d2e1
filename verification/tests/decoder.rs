use usls::contours::{BorderType, Contour};
use usls::db::{ConfigError, DecodeError, Detection};
use usls::mask::Interpolation;
use usls::models::DB;
use usls::y::{Keypoint, Mask};
use usls::{Bbox, Options, Point, Polygon, ScaleInfo, Xs, Y};

fn small(side: u32) -> DB {
    DB::new(Options::new().with_model_size(side, side)).unwrap()
}

fn block(width: usize, height: usize, x0: usize, y0: usize, x1: usize, y1: usize) -> Vec<u32> {
    let mut probs = vec![0u32; width * height];
    for y in y0..=y1 {
        for x in x0..=x1 {
            probs[y * width + x] = 900_000;
        }
    }
    probs
}

fn boxes(y: &Y) -> Vec<(i64, i64, i64, i64, u32, usize)> {
    y.bboxes().iter().map(|b| (b.xmin(), b.ymin(), b.width(), b.height(), b.confidence(), b.id())).collect()
}

fn outlines(y: &Y) -> Vec<Vec<(i64, i64)>> {
    y.polygons().iter().map(|p| p.points().iter().map(|q| (q.x, q.y)).collect()).collect()
}

fn fill(polygon: &Polygon, bbox: &Bbox) -> u32 {
    let r = polygon.area2() * 1_000_000 / (2 * bbox.area() as u128);
    if r > 1_000_000 { 1_000_000 } else { r as u32 }
}

fn check_record(db: &DB, y: &Y) {
    assert_eq!(y.bboxes().len(), y.polygons().len());
    assert_eq!(y.mbrs().len(), y.polygons().len());
    for (p, m) in y.polygons().iter().zip(y.mbrs().iter()) {
        let own = p.mbr().unwrap();
        assert_eq!((m.anchor(), m.direction()), (own.anchor(), own.direction()));
        assert_eq!((m.extent_along(), m.extent_across()), (own.extent_along(), own.extent_across()));
        assert_eq!(m.id(), 0);
    }
    for (m, b) in y.mbrs().iter().zip(y.bboxes().iter()) {
        assert_eq!(m.confidence(), b.confidence());
    }
    for (p, b) in y.polygons().iter().zip(y.bboxes().iter()) {
        assert!(b.width() >= db.min_width());
        assert!(b.height() >= db.min_height());
        assert!(p.count() >= 3 && p.count() <= db.resample_target());
        assert_eq!(b.confidence(), fill(p, b));
        assert!(b.confidence() >= db.confs().get(0).unwrap());
        assert_eq!(b.id(), 0);
        assert_eq!(p.id(), Some(0));
        assert!(p.has_frames());
        let own = p.bbox().unwrap();
        assert_eq!((own.xmin(), own.ymin(), own.width(), own.height()), (b.xmin(), b.ymin(), b.width(), b.height()));
    }
}

#[test]
fn unset_options_take_their_defaults() {
    let db = DB::new(Options::new()).unwrap();
    assert_eq!((db.height(), db.width(), db.batch()), (960, 960, 1));
    assert_eq!((db.confs().len(), db.confs().get(0)), (1, Some(300_000)));
    assert_eq!((db.unclip_ratio(), db.binary_thresh()), (1_500_000, 200_000));
    assert_eq!((db.min_width(), db.min_height()), (768, 320));
    assert_eq!(db.resample_target(), 50);
    assert_eq!(db.interpolation(), Interpolation::Bilinear);
    let same = DB::new(Options::default()).unwrap();
    assert_eq!((same.height(), same.unclip_ratio()), (960, 1_500_000));
}

#[test]
fn set_options_are_taken_over() {
    let options = Options::new()
        .with_class_confs(vec![450_000, 100_000])
        .with_binary_thresh(300_000)
        .with_unclip_ratio(2_000_000)
        .with_min_width(64)
        .with_min_height(128)
        .with_model_size(480, 640)
        .with_batch(4)
        .with_resample_target(20)
        .with_interpolation(Interpolation::Nearest);
    let db = DB::new(options).unwrap();
    assert_eq!((db.height(), db.width(), db.batch()), (480, 640, 4));
    assert_eq!((db.confs().len(), db.confs().get(0)), (1, Some(450_000)));
    assert_eq!((db.unclip_ratio(), db.binary_thresh()), (2_000_000, 300_000));
    assert_eq!((db.min_width(), db.min_height()), (64, 128));
    assert_eq!(db.resample_target(), 20);
    assert_eq!(db.interpolation(), Interpolation::Nearest);
}

#[test]
fn bad_options_are_refused_with_their_first_fault() {
    let fault = |o: Options| DB::new(o).err();
    assert_eq!(fault(Options::new().with_class_confs(vec![])), Some(ConfigError::NoConfidence));
    assert_eq!(fault(Options::new().with_class_confs(vec![1_000_001])), Some(ConfigError::ConfidenceOutOfRange));
    assert_eq!(fault(Options::new().with_class_confs(vec![0, 2_000_000])), Some(ConfigError::ConfidenceOutOfRange));
    assert_eq!(fault(Options::new().with_binary_thresh(1_000_001)), Some(ConfigError::ThresholdOutOfRange));
    assert_eq!(fault(Options::new().with_model_size(0, 960)), Some(ConfigError::BadModelSize));
    assert_eq!(fault(Options::new().with_model_size(960, 32_769)), Some(ConfigError::BadModelSize));
    assert_eq!(fault(Options::new().with_min_width(-1)), Some(ConfigError::BadMinimumSize));
    assert_eq!(fault(Options::new().with_min_height(2_097_153)), Some(ConfigError::BadMinimumSize));
    assert_eq!(fault(Options::new().with_resample_target(2)), Some(ConfigError::BadResampleTarget));
    assert_eq!(fault(Options::new().with_resample_target(1_048_577)), Some(ConfigError::BadResampleTarget));
    assert_eq!(
        fault(Options::new().with_class_confs(vec![]).with_binary_thresh(2_000_000)),
        Some(ConfigError::NoConfidence)
    );
    assert_eq!(
        fault(Options::new().with_binary_thresh(2_000_000).with_resample_target(0)),
        Some(ConfigError::ThresholdOutOfRange)
    );
    assert!(DB::new(Options::new().with_binary_thresh(1_000_000).with_resample_target(3)).is_ok());
}

#[test]
fn fully_foreground_mask_gives_one_polygon_over_the_image() {
    let db = small(100);
    let scale = ScaleInfo::new(100, 100, 1_000_000).unwrap();
    let y = db.decode_image(&vec![1_000_000u32; 100 * 100], &scale);
    assert_eq!(y.polygons().len(), 1);
    assert_eq!(y.bboxes().len(), 1);
    assert_eq!(y.mbrs().len(), 1);
    let b = y.bboxes()[0];
    assert_eq!((b.xmin(), b.ymin(), b.width(), b.height()), (0, 0, 6_400, 6_400));
    assert!(b.confidence() >= 990_000, "confidence {}", b.confidence());
    assert_eq!(y.mbrs()[0].confidence(), b.confidence());
    assert_eq!(y.mbrs()[0].id(), 0);
    check_record(&db, &y);
}

#[test]
fn background_mask_gives_the_empty_record() {
    let db = small(16);
    let scale = ScaleInfo::new(40, 30, 1_000_000).unwrap();
    let y = db.decode_image(&vec![0u32; 256], &scale);
    assert!(y.is_empty());
    let y = db.decode_image(&vec![200_000u32; 256], &scale);
    assert!(y.is_empty());
    assert!(y.bboxes().is_empty() && y.polygons().is_empty() && y.mbrs().is_empty());
}

#[test]
fn block_is_dilated_and_boxed() {
    let db = small(32);
    let scale = ScaleInfo::new(32, 32, 1_000_000).unwrap();
    let y = db.decode_image(&block(32, 32, 8, 10, 23, 19), &scale);
    assert_eq!(boxes(&y).len(), 1);
    let b = y.bboxes()[0];
    assert_eq!((b.xmin(), b.ymin(), b.width(), b.height()), (242, 370, 1_500, 1_116));
    assert!(b.confidence() > 900_000 && b.confidence() <= 1_000_000);
    check_record(&db, &y);
}

#[test]
fn accepted_boxes_meet_the_configured_floors() {
    let probs = block(32, 32, 8, 10, 23, 19);
    let scale = ScaleInfo::new(32, 32, 1_000_000).unwrap();
    let wide = DB::new(Options::new().with_model_size(32, 32).with_min_width(1_500)).unwrap();
    assert_eq!(wide.decode_image(&probs, &scale).bboxes().len(), 1);
    let wider = DB::new(Options::new().with_model_size(32, 32).with_min_width(1_501)).unwrap();
    assert!(wider.decode_image(&probs, &scale).is_empty());
    let high = DB::new(Options::new().with_model_size(32, 32).with_min_height(1_116)).unwrap();
    assert_eq!(high.decode_image(&probs, &scale).bboxes().len(), 1);
    let higher = DB::new(Options::new().with_model_size(32, 32).with_min_height(1_117)).unwrap();
    assert!(higher.decode_image(&probs, &scale).is_empty());
    let sure = DB::new(Options::new().with_model_size(32, 32).with_class_confs(vec![1_000_000])).unwrap();
    assert!(sure.decode_image(&probs, &scale).is_empty());
}

fn border(x0: i32, y0: i32, x1: i32, y1: i32) -> Vec<(i32, i32)> {
    let mut points = Vec::new();
    points.extend((y0..y1).map(|y| (x0, y)));
    points.extend((x0..x1).map(|x| (x, y1)));
    points.extend((y0 + 1..=y1).rev().map(|y| (x1, y)));
    points.extend((x0 + 1..=x1).rev().map(|x| (x, y0)));
    points
}

#[test]
fn rounded_scale_ratio_sets_the_dilation() {
    let db = small(32);
    let contour = Contour::new(border(8, 10, 23, 19), BorderType::Outer, None);
    let boxed = |ratio: u64| {
        let d = db.refine(&contour, &ScaleInfo::new(32, 32, ratio).unwrap()).unwrap();
        (d.bbox.xmin(), d.bbox.ymin(), d.bbox.width(), d.bbox.height())
    };
    assert_eq!(boxed(499_999), (512, 640, 960, 576));
    assert_eq!(boxed(500_000), (242, 370, 1_500, 1_116));
    assert_eq!(boxed(1_499_999), (242, 370, 1_500, 1_116));
    assert_eq!(boxed(1_500_000), (0, 100, 2_012, 1_656));
}

fn letterbox_db(mode: Interpolation) -> DB {
    let options = Options::new()
        .with_model_size(100, 100)
        .with_unclip_ratio(0)
        .with_min_width(0)
        .with_min_height(0)
        .with_interpolation(mode);
    DB::new(options).unwrap()
}

#[test]
fn region_of_a_letterboxed_source_is_mapped_back_by_the_ratio() {
    let db = letterbox_db(Interpolation::Nearest);
    let scale = ScaleInfo::fit(100, 100, 100, 200).unwrap();
    assert_eq!((scale.height(), scale.width(), scale.ratio_ppm()), (100, 200, 500_000));
    let y = db.decode_image(&block(100, 100, 20, 10, 59, 29), &scale);
    assert_eq!(y.bboxes().len(), 1);
    let b = y.bboxes()[0];
    assert_eq!((b.xmin(), b.ymin(), b.xmax(), b.ymax()), (40 * 64, 20 * 64, 119 * 64, 59 * 64));
    assert_eq!((b.width(), b.height()), (79 * 64, 39 * 64));
    assert!(b.confidence() >= 990_000);
    for &(x, y) in outlines(&y)[0].iter() {
        assert!(x == 2_560 || x == 7_616 || y == 1_280 || y == 3_776);
    }
    assert_eq!(y.polygons()[0].id(), Some(0));
    check_record(&db, &y);
}

#[test]
fn rows_below_the_scaled_source_are_left_out() {
    let db = letterbox_db(Interpolation::Nearest);
    let scale = ScaleInfo::fit(100, 100, 100, 200).unwrap();
    assert!(db.decode_image(&block(100, 100, 20, 50, 59, 99), &scale).is_empty());
    let y = db.decode_image(&block(100, 100, 20, 40, 59, 99), &scale);
    let b = y.bboxes()[0];
    assert_eq!((b.xmin(), b.ymin(), b.xmax(), b.ymax()), (40 * 64, 80 * 64, 119 * 64, 99 * 64));
}

#[test]
fn offset_of_the_scaled_source_is_taken_off() {
    let db = letterbox_db(Interpolation::Nearest);
    let scale = ScaleInfo::fit(100, 100, 100, 200).unwrap().with_offset(0, 25 * 64).unwrap();
    let y = db.decode_image(&block(100, 100, 20, 35, 59, 54), &scale);
    let b = y.bboxes()[0];
    assert_eq!((b.xmin(), b.ymin(), b.xmax(), b.ymax()), (40 * 64, 20 * 64, 119 * 64, 59 * 64));
    assert!(db.decode_image(&block(100, 100, 20, 0, 59, 24), &scale).is_empty());
    assert!(db.decode_image(&block(100, 100, 20, 75, 59, 99), &scale).is_empty());
    let sideways = ScaleInfo::fit(100, 100, 200, 100).unwrap().with_offset(25 * 64 + 63, 0).unwrap();
    let y = db.decode_image(&block(100, 100, 35, 20, 54, 59), &sideways);
    let b = y.bboxes()[0];
    assert_eq!((b.xmin(), b.ymin(), b.xmax(), b.ymax()), (20 * 64, 40 * 64, 59 * 64, 119 * 64));
}

#[test]
fn blended_region_of_a_letterboxed_source_lands_within_a_pixel() {
    let db = letterbox_db(Interpolation::Bilinear);
    let scale = ScaleInfo::fit(100, 100, 100, 200).unwrap();
    let y = db.decode_image(&block(100, 100, 20, 10, 59, 29), &scale);
    let b = y.bboxes()[0];
    assert_eq!((b.xmin(), b.ymin(), b.xmax(), b.ymax()), (39 * 64, 19 * 64, 120 * 64, 60 * 64));
    let near = |got: i64, want: i64| (got - want * 64).abs() <= 64;
    assert!(near(b.xmin(), 40) && near(b.ymin(), 20) && near(b.width(), 80) && near(b.height(), 40));
}

#[test]
fn boxes_and_polygons_of_one_image_share_a_frame() {
    let db = letterbox_db(Interpolation::Nearest);
    let scale = ScaleInfo::fit(100, 100, 100, 200).unwrap().with_offset(0, 25 * 64).unwrap();
    let confs = usls::DynConf::new(&vec![500_000], 1).unwrap();
    let anchors = vec![usls::Anchor { cx: 40 * 64, cy: 45 * 64, w: 40 * 64, h: 20 * 64, scores: vec![900_000] }];
    let probs = block(100, 100, 20, 35, 59, 54);
    let y = usls::models::decode_multitask(&anchors, &confs, 500_000, &db, &probs, &scale);
    assert_eq!(y.bboxes().len(), 2);
    let (detected, segmented) = (y.bboxes()[0], y.bboxes()[1]);
    assert_eq!((detected.xmin(), detected.ymin(), detected.xmax(), detected.ymax()), (40 * 64, 20 * 64, 120 * 64, 60 * 64));
    assert_eq!((segmented.xmin(), segmented.ymin(), segmented.xmax(), segmented.ymax()), (40 * 64, 20 * 64, 119 * 64, 59 * 64));
}

#[test]
fn occupied_part_of_the_model_input() {
    let part = |s: ScaleInfo, h: u32, w: u32| s.occupied(h, w).map(|p| (p.x, p.y, p.width, p.height));
    let wide = ScaleInfo::fit(100, 100, 100, 200).unwrap();
    assert_eq!(part(wide, 100, 100), Some((0, 0, 100, 50)));
    assert_eq!(part(wide.with_offset(0, 1_600).unwrap(), 100, 100), Some((0, 25, 100, 50)));
    assert_eq!(part(wide.with_offset(0, 60 * 64).unwrap(), 100, 100), Some((0, 60, 100, 40)));
    assert_eq!(part(wide.with_offset(200 * 64, 0).unwrap(), 100, 100), Some((99, 0, 1, 50)));
    assert_eq!(part(ScaleInfo::fit(100, 100, 7, 7).unwrap(), 100, 100), Some((0, 0, 100, 100)));
    assert_eq!(part(ScaleInfo::new(10, 10, 1).unwrap(), 100, 100), Some((0, 0, 1, 1)));
    assert_eq!(part(ScaleInfo::new(10, 30, 1_449_999).unwrap(), 100, 100), Some((0, 0, 43, 14)));
    assert_eq!(part(ScaleInfo::new(10, 30, 1_450_000).unwrap(), 100, 100), Some((0, 0, 44, 15)));
    assert_eq!(part(wide, 0, 100), None);
    assert_eq!(part(wide, 100, 32_769), None);
}

#[test]
fn mask_is_resized_to_the_source_image() {
    let db = DB::new(Options::new().with_model_size(16, 16).with_interpolation(Interpolation::Nearest)).unwrap();
    let scale = ScaleInfo::new(64, 64, 250_000).unwrap();
    let y = db.decode_image(&block(16, 16, 4, 4, 11, 11), &scale);
    assert_eq!(y.bboxes().len(), 1);
    let b = y.bboxes()[0];
    assert_eq!((b.xmin(), b.ymin(), b.width(), b.height()), (1_024, 1_024, 1_984, 1_984));
    check_record(&db, &y);
}

#[test]
fn map_of_the_wrong_size_gives_the_empty_record() {
    let db = small(16);
    let scale = ScaleInfo::new(16, 16, 1_000_000).unwrap();
    assert!(db.decode_image(&vec![1_000_000u32; 255], &scale).is_empty());
    assert!(db.decode_image(&vec![], &scale).is_empty());
}

#[test]
fn several_regions_come_in_tracing_order() {
    let db = DB::new(Options::new().with_model_size(64, 64).with_min_width(64).with_min_height(64)).unwrap();
    let scale = ScaleInfo::new(64, 64, 1_000_000).unwrap();
    let mut probs = block(64, 64, 40, 4, 55, 12);
    for (i, p) in block(64, 64, 4, 30, 20, 50).into_iter().enumerate() {
        if p > 0 {
            probs[i] = p;
        }
    }
    let y = db.decode_image(&probs, &scale);
    assert_eq!(y.bboxes().len(), 2);
    assert!(y.bboxes()[0].ymin() < y.bboxes()[1].ymin());
    assert!(y.bboxes()[0].xmin() > y.bboxes()[1].xmin());
    check_record(&db, &y);
}

#[test]
fn batch_keeps_the_order_of_the_images() {
    let db = small(32);
    let images = [block(32, 32, 2, 10, 12, 20), vec![0u32; 1024], block(32, 32, 18, 8, 29, 22), block(32, 32, 8, 2, 24, 9)];
    let scales: Vec<ScaleInfo> = (0..4).map(|_| ScaleInfo::new(32, 32, 1_000_000).unwrap()).collect();
    let mut data = Vec::new();
    for image in images.iter() {
        data.extend_from_slice(image);
    }
    let xs = Xs::new(4, 32, 32, data).unwrap();
    let ys = db.postprocess(&xs, &scales).unwrap();
    assert_eq!(ys.len(), 4);
    for i in 0..4 {
        let alone = db.decode_image(&images[i], &scales[i]);
        assert_eq!(boxes(&ys[i]), boxes(&alone));
        assert_eq!(outlines(&ys[i]), outlines(&alone));
        assert_eq!(ys[i].mbrs().len(), alone.mbrs().len());
        check_record(&db, &ys[i]);
    }
    assert!(ys[1].is_empty());
    assert_eq!(ys[0].bboxes().len(), 1);
    assert_eq!(ys[2].bboxes().len(), 1);
    assert_eq!(ys[3].bboxes().len(), 1);
    assert!(ys[0].bboxes()[0].xmax() < ys[2].bboxes()[0].xmax());
    assert!(ys[3].bboxes()[0].ymax() < ys[0].bboxes()[0].ymax());
    let mut back = Vec::new();
    for i in [2usize, 1, 0, 3] {
        back.extend_from_slice(&images[i]);
    }
    let swapped = db.postprocess(&Xs::new(4, 32, 32, back).unwrap(), &scales).unwrap();
    assert_eq!(boxes(&swapped[0]), boxes(&ys[2]));
    assert_eq!(boxes(&swapped[2]), boxes(&ys[0]));
}

#[test]
fn each_image_is_decoded_with_its_own_scale() {
    let db = small(16);
    let image = block(16, 16, 4, 4, 11, 11);
    let mut data = image.clone();
    data.extend_from_slice(&image);
    let xs = Xs::new(2, 16, 16, data).unwrap();
    let scales = vec![ScaleInfo::new(16, 16, 1_000_000).unwrap(), ScaleInfo::new(64, 48, 250_000).unwrap()];
    let ys = db.postprocess(&xs, &scales).unwrap();
    assert_eq!(boxes(&ys[0]), boxes(&db.decode_image(&image, &scales[0])));
    assert_eq!(boxes(&ys[1]), boxes(&db.decode_image(&image, &scales[1])));
    assert!(boxes(&ys[0]) != boxes(&ys[1]));
}

#[test]
fn malformed_batch_fails_as_a_whole() {
    let db = small(16);
    let scale = ScaleInfo::new(16, 16, 1_000_000).unwrap();
    let xs = Xs::new(1, 16, 8, vec![0; 128]).unwrap();
    assert_eq!(db.postprocess(&xs, &vec![scale]).err(), Some(DecodeError::ShapeMismatch));
    let xs = Xs::new(1, 8, 16, vec![0; 128]).unwrap();
    assert_eq!(db.postprocess(&xs, &vec![]).err(), Some(DecodeError::ShapeMismatch));
    let xs = Xs::new(2, 16, 16, vec![0; 512]).unwrap();
    assert_eq!(db.postprocess(&xs, &vec![scale]).err(), Some(DecodeError::BatchMismatch));
    assert_eq!(db.postprocess(&xs, &vec![scale, scale, scale]).err(), Some(DecodeError::BatchMismatch));
    let none = Xs::new(0, 16, 16, vec![]).unwrap();
    assert!(db.postprocess(&none, &vec![]).unwrap().is_empty());
}

#[test]
fn batch_must_hold_whole_maps() {
    assert!(Xs::new(2, 4, 4, vec![0; 31]).is_none());
    assert!(Xs::new(2, 4, 4, vec![0; 33]).is_none());
    assert!(Xs::new(1, 0, 4, vec![]).is_none());
    assert!(Xs::new(1, 4, 32_769, vec![0; 4 * 32_769]).is_none());
    let xs = Xs::new(2, 2, 3, vec![1, 2, 3, 4, 5, 6, 7, 8, 9, 10, 11, 12]).unwrap();
    assert_eq!((xs.batch(), xs.height(), xs.width()), (2, 2, 3));
    assert_eq!(xs.image(0), Some(&[1u32, 2, 3, 4, 5, 6][..]));
    assert_eq!(xs.image(1), Some(&[7u32, 8, 9, 10, 11, 12][..]));
    assert_eq!(xs.image(2), None);
}

#[test]
fn degenerate_contours_are_dropped() {
    let db = DB::new(Options::new().with_min_width(0).with_min_height(0).with_class_confs(vec![0])).unwrap();
    let scale = ScaleInfo::new(100, 100, 1_000_000).unwrap();
    let square = vec![(10, 10), (10, 30), (30, 30), (30, 10)];
    assert!(db.refine(&Contour::new(square.clone(), BorderType::Outer, None), &scale).is_some());
    assert!(db.refine(&Contour::new(square.clone(), BorderType::Hole, Some(0)), &scale).is_some());
    assert!(db.refine(&Contour::new(vec![(10, 10), (30, 30)], BorderType::Hole, Some(0)), &scale).is_none());
    assert!(db.refine(&Contour::new(vec![(10, 10)], BorderType::Outer, None), &scale).is_none());
    assert!(db.refine(&Contour::new(vec![], BorderType::Outer, None), &scale).is_none());
    assert!(db.refine(&Contour::new(vec![(10, 10), (20, 20), (30, 30)], BorderType::Outer, None), &scale).is_none());
    assert!(db.refine(&Contour::new(vec![(-1, 10), (10, 30), (30, 30)], BorderType::Outer, None), &scale).is_none());
    assert!(db.refine(&Contour::new(vec![(10, 10), (10, 32_769), (30, 30)], BorderType::Outer, None), &scale).is_none());
    assert!(db.refine(&Contour::new(vec![(5, 5); 1_048_577], BorderType::Outer, None), &scale).is_none());
}

#[test]
fn long_contours_are_refined() {
    let db = DB::new(Options::new().with_min_width(0).with_min_height(0).with_class_confs(vec![0])).unwrap();
    let scale = ScaleInfo::new(100, 100, 1_000_000).unwrap();
    let mut points = Vec::new();
    for corner in [(10, 10), (10, 30), (30, 30), (30, 10)] {
        points.extend(vec![corner; 300_000]);
    }
    let d = db.refine(&Contour::new(points, BorderType::Outer, None), &scale).unwrap();
    assert_eq!((d.bbox.xmin(), d.bbox.ymin(), d.bbox.xmax(), d.bbox.ymax()), (160, 160, 2_400, 2_400));
    assert_eq!(d.polygon.id(), Some(0));
}

#[test]
fn refined_contour_matches_the_stages_run_by_hand() {
    let db = DB::new(Options::new().with_min_width(0).with_min_height(0)).unwrap();
    let scale = ScaleInfo::new(100, 100, 1_000_000).unwrap();
    let pixels = vec![(10, 10), (10, 30), (30, 30), (30, 10)];
    let d = db.refine(&Contour::new(pixels.clone(), BorderType::Outer, None), &scale).unwrap();
    let outline = Polygon::new()
        .with_points(pixels.iter().map(|&(x, y)| Point::from_pixel(x, y)).collect())
        .unwrap()
        .with_id(0);
    let delta = outline.unclip_distance(&scale, db.unclip_ratio()).unwrap();
    assert_eq!(delta, 480);
    let hull = outline.unclip(delta, 100, 100).resample(50).unwrap().convex_hull().verify().unwrap();
    let got: Vec<(i64, i64)> = d.polygon.points().iter().map(|p| (p.x, p.y)).collect();
    let want: Vec<(i64, i64)> = hull.points().iter().map(|p| (p.x, p.y)).collect();
    assert_eq!(got, want);
    assert_eq!(d.bbox.confidence(), fill(&hull, &hull.bbox().unwrap()));
    assert_eq!(d.mbr.unwrap().confidence(), d.bbox.confidence());
    assert_eq!((d.bbox.xmin(), d.bbox.ymin()), (640 - 339, 640 - 339));
}

#[test]
fn confidence_is_the_share_of_the_box_that_the_polygon_fills() {
    let pts = |v: &[(i64, i64)]| v.iter().map(|&(x, y)| Point::new(x, y)).collect::<Vec<Point>>();
    let db = DB::new(Options::new()).unwrap();
    let triangle = Polygon::new().with_points(pts(&[(0, 0), (6_400, 0), (0, 6_400)])).unwrap();
    let Detection { polygon, bbox, mbr } = db.accept(triangle).unwrap();
    assert_eq!(bbox.confidence(), 500_000);
    assert_eq!(bbox.id(), 0);
    assert_eq!((bbox.width(), bbox.height()), (6_400, 6_400));
    assert_eq!(polygon.count(), 3);
    assert_eq!(mbr.unwrap().confidence(), 500_000);
    let square = Polygon::new().with_points(pts(&[(0, 0), (6_400, 0), (6_400, 6_400), (0, 6_400)])).unwrap();
    assert_eq!(db.accept(square).unwrap().bbox.confidence(), 1_000_000);
    let sliver = Polygon::new().with_points(pts(&[(0, 0), (6_400, 0), (6_400, 6_400), (6_399, 6_400)])).unwrap();
    assert_eq!(db.accept(sliver).unwrap().bbox.confidence(), 500_078);
    let strict = DB::new(Options::new().with_class_confs(vec![500_079])).unwrap();
    let sliver = Polygon::new().with_points(pts(&[(0, 0), (6_400, 0), (6_400, 6_400), (6_399, 6_400)])).unwrap();
    assert!(strict.accept(sliver).is_none());
    let thin = Polygon::new().with_points(pts(&[(0, 0), (767, 0), (0, 6_400)])).unwrap();
    assert!(db.accept(thin).is_none());
    let low = Polygon::new().with_points(pts(&[(0, 0), (6_400, 0), (0, 319)])).unwrap();
    assert!(db.accept(low).is_none());
    assert!(db.accept(Polygon::new()).is_none());
}

#[test]
fn records_merge_kind_by_kind() {
    let db = small(32);
    let scale = ScaleInfo::new(32, 32, 1_000_000).unwrap();
    let a = db.decode_image(&block(32, 32, 8, 10, 23, 19), &scale);
    let b = db.decode_image(&block(32, 32, 2, 2, 20, 12), &scale);
    let (ba, bb) = (boxes(&a), boxes(&b));
    let merged = a.merge(b);
    assert_eq!(boxes(&merged), [ba, bb].concat());
    assert_eq!(merged.polygons().len(), 2);
    assert_eq!(merged.mbrs().len(), 2);
    let extra = Bbox::new(1, 2, 3, 4, 5, 6).unwrap();
    let with = Y::new().with_bboxes(vec![extra]).with_polygons(vec![]).with_mbrs(vec![]);
    assert!(!with.is_empty());
    assert_eq!(boxes(&with), vec![(1, 2, 3, 4, 5, 6)]);
    assert!(Y::new().merge(Y::default()).is_empty());
}

#[test]
fn detections_and_segments_share_one_record() {
    let db = small(32);
    let scale = ScaleInfo::new(32, 32, 1_000_000).unwrap();
    let confs = usls::DynConf::new(&vec![500_000], 1).unwrap();
    let anchors = vec![
        usls::Anchor { cx: 640, cy: 640, w: 640, h: 640, scores: vec![900_000] },
        usls::Anchor { cx: 700, cy: 640, w: 640, h: 640, scores: vec![800_000] },
        usls::Anchor { cx: 1_800, cy: 1_800, w: 200, h: 200, scores: vec![100_000] },
    ];
    let probs = block(32, 32, 8, 10, 23, 19);
    let y = usls::models::decode_multitask(&anchors, &confs, 500_000, &db, &probs, &scale);
    let alone = db.decode_image(&probs, &scale);
    assert_eq!(boxes(&y).len(), 2);
    assert_eq!(boxes(&y)[0], (320, 320, 640, 640, 900_000, 0));
    assert_eq!(boxes(&y)[1], boxes(&alone)[0]);
    assert_eq!(outlines(&y), outlines(&alone));
    assert_eq!(y.mbrs().len(), 1);
    assert!(y.keypoints().is_empty() && y.masks().is_empty());
}

#[test]
fn record_holds_keypoints_and_masks() {
    let set = vec![
        Keypoint { x: 64, y: 128, confidence: 900_000, id: 0 },
        Keypoint { x: 640, y: 320, confidence: 100_000, id: 1 },
    ];
    let mask = Mask::new(vec![0, 255, 255, 0, 0, 0], 3, 2, 4).unwrap();
    assert_eq!((mask.width(), mask.height(), mask.id()), (3, 2, 4));
    assert_eq!(mask.pixels(), &vec![0, 255, 255, 0, 0, 0]);
    assert!(Mask::new(vec![0; 5], 3, 2, 0).is_none());
    assert!(Mask::new(vec![0; 7], 3, 2, 0).is_none());
    assert!(Mask::new(vec![], 32_769, 0, 0).is_none());
    assert!(Mask::new(vec![], 0, 0, 0).is_some());
    let y = Y::new().with_keypoints(vec![set.clone()]).with_masks(vec![mask]);
    assert!(!y.is_empty());
    assert_eq!(y.keypoints(), &vec![set.clone()]);
    assert_eq!(y.masks().len(), 1);
    let more = Y::new().with_keypoints(vec![vec![], set.clone()]);
    let all = y.merge(more);
    assert_eq!(all.keypoints(), &vec![set.clone(), vec![], set]);
    assert_eq!(all.masks().len(), 1);
    assert!(all.bboxes().is_empty());
}
